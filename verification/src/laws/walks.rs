//! Laws of walking the source: which files are images, and what a search and a
//! count come to.

use crate::config::{Config, Order};
use crate::laws::texts::{last_place, no_place};
use crate::order::text_lt;
use crate::text::{lowered, opt_text, views};
use crate::tree::{
    below, entries_of, entry_of, forest_fits, forest_of, images_ahead_in_range, images_at_front,
    images_left, images_left_append, names_are_plain, tree_images, tree_images_are_left, Children,
    Node,
};
use crate::unix_path::{joined, under};
use crate::walk::{
    additions, admitted, child_rel, consider, count_backlog, entry_views, find_next,
    has_allowed_ext, has_extension, images_ahead, is_next, is_pruned, keep_rules, next_is_unique,
    pending_after, rels, root_item, source_rules, CountBacklog, CountStep, DirEntry, EntryKind,
    EntryView, FindNext, FindStep, ItemView, Listing, Rules,
};
use vstd::prelude::*;
use vstd::utf8::encode_utf8;

verus! {

/// A file name is that of an image if what follows its last dot, with its letters
/// made small, is an allowed extension.
pub proof fn last_dot_starts_the_extension(
    cfg: Config,
    name: &str,
    s: Seq<char>,
    e: Seq<char>,
    r: bool,
)
    requires
        call_ensures(has_allowed_ext, (&cfg, name), r),
        name@ == s + seq!['.'] + e,
        s.len() > 0,
        !e.contains('.'),
    ensures
        r <==> exists|i: int|
            0 <= i < cfg.extensions@.len() && (#[trigger] cfg.extensions@[i])@ == lowered(e),
{
    extension_is_behind_the_last_dot(views(cfg.extensions@), s, e);
    let all = views(cfg.extensions@);
    if all.contains(lowered(e)) {
        let i = choose|i: int| 0 <= i < all.len() && all[i] == lowered(e);
        assert(cfg.extensions@[i]@ == lowered(e));
    }
    if exists|i: int|
        0 <= i < cfg.extensions@.len() && (#[trigger] cfg.extensions@[i])@ == lowered(e) {
        let i = choose|i: int|
            0 <= i < cfg.extensions@.len() && (#[trigger] cfg.extensions@[i])@ == lowered(e);
        assert(all[i] == lowered(e));
    }
}

/// The same of what having an extension is said to be.
pub proof fn extension_is_behind_the_last_dot(
    extensions: Seq<Seq<char>>,
    s: Seq<char>,
    e: Seq<char>,
)
    requires
        s.len() > 0,
        !e.contains('.'),
    ensures
        has_extension(extensions, s + seq!['.'] + e) <==> extensions.contains(lowered(e)),
{
    let name = s + seq!['.'] + e;
    assert(name[s.len() as int] == '.');
    let at = last_place(name, '.');
    if at > s.len() {
        assert(e[at - s.len() - 1] == '.');
    }
    assert(name.skip(at + 1) =~= e);
}

/// A file name with no dot, or with one only in front, is no image.
pub proof fn name_without_extension_is_no_image(cfg: Config, name: &str, r: bool)
    requires
        call_ensures(has_allowed_ext, (&cfg, name), r),
        forall|i: int| 0 < i < name@.len() ==> name@[i] != '.',
    ensures
        !r,
        forall|extensions: Seq<Seq<char>>| !#[trigger] has_extension(extensions, name@),
{
    if name@.contains('.') {
        let _ = last_place(name@, '.');
    } else {
        no_place(name@, '.');
    }
}

/// A numbered name is an image exactly if the name is.
pub proof fn numbered_name_stays_an_image(
    extensions: Seq<Seq<char>>,
    s: Seq<char>,
    number: Seq<char>,
    e: Seq<char>,
)
    requires
        s.len() > 0,
        !e.contains('.'),
    ensures
        has_extension(extensions, s + seq!['_'] + number + seq!['.'] + e) <==> has_extension(
            extensions,
            s + seq!['.'] + e,
        ),
{
    extension_is_behind_the_last_dot(extensions, s, e);
    extension_is_behind_the_last_dot(extensions, s + seq!['_'] + number, e);
}

/// The source is walked by the configured extensions, leaving out what is under
/// keep or trash; the kept images are walked by the same extensions, leaving out
/// nothing.
pub proof fn walks_go_by_the_configuration(cfg: Config, path: Seq<u8>)
    ensures
        source_rules(cfg).extensions == views(cfg.extensions@),
        is_pruned(source_rules(cfg), path) <==> under(path, cfg.keep_dir@) || under(
            path,
            cfg.trash_dir@,
        ),
        keep_rules(cfg).extensions == views(cfg.extensions@),
        !is_pruned(keep_rules(cfg), path),
{
    let rules = source_rules(cfg);
    assert(rules.prune[0] == cfg.keep_dir@);
    assert(rules.prune[1] == cfg.trash_dir@);
}

/// Whether `names` lead to a regular file through the entries at `places`, with a
/// directory at each step before the last.
pub open spec fn leads_to(children: Children, names: Seq<Seq<char>>, places: Seq<int>) -> bool
    decreases names.len(),
{
    &&& names.len() > 0
    &&& places.len() == names.len()
    &&& 0 <= places[0] < children.len()
    &&& children[places[0]].0 == Some(names[0])
    &&& if names.len() == 1 {
        children[places[0]].1 is File
    } else {
        children[places[0]].1 matches Node::Dir(sub) && leads_to(
            sub,
            names.drop_first(),
            places.drop_first(),
        )
    }
}

/// Whether a tree holds a regular file at the path of `names`.
pub open spec fn holds_file(children: Children, names: Seq<Seq<char>>) -> bool {
    exists|places: Seq<int>| #[trigger] leads_to(children, names, places)
}

/// Names with slashes between them.
pub open spec fn slashed(names: Seq<Seq<char>>) -> Seq<char>
    decreases names.len(),
{
    if names.len() == 0 {
        Seq::empty()
    } else if names.len() == 1 {
        names[0]
    } else {
        names[0] + seq!['/'] + slashed(names.drop_first())
    }
}

/// The path that names lead to from a directory.
pub open spec fn descended(abs: Seq<u8>, names: Seq<Seq<char>>) -> Seq<u8>
    decreases names.len(),
{
    if names.len() == 0 {
        abs
    } else {
        descended(joined(abs, encode_utf8(names[0])), names.drop_first())
    }
}

/// Whether no directory on the way to the last name is in a subtree to skip.
pub open spec fn way_is_open(rules: Rules, abs: Seq<u8>, names: Seq<Seq<char>>) -> bool
    decreases names.len(),
{
    names.len() > 1 ==> {
        let next = joined(abs, encode_utf8(names[0]));
        !is_pruned(rules, next) && way_is_open(rules, next, names.drop_first())
    }
}

/// Whether no name is empty or starts with a dot.
pub open spec fn all_visible(names: Seq<Seq<char>>) -> bool {
    forall|i: int|
        0 <= i < names.len() ==> (#[trigger] names[i]).len() > 0 && names[i][0] != '.'
}

/// The image at the path of some names below a directory.
pub open spec fn image_at(dir: ItemView, names: Seq<Seq<char>>) -> ItemView {
    ItemView {
        rel: if dir.rel.len() == 0 {
            slashed(names)
        } else {
            dir.rel + seq!['/'] + slashed(names)
        },
        abs: descended(dir.abs, names),
        dir: false,
    }
}

/// Whether a tree has an image at the path of `names`: a regular file in visible
/// directories that are not to be skipped, under a visible name with an allowed
/// extension.
pub open spec fn has_image(
    rules: Rules,
    abs: Seq<u8>,
    children: Children,
    names: Seq<Seq<char>>,
) -> bool {
    &&& holds_file(children, names)
    &&& all_visible(names)
    &&& has_extension(rules.extensions, names.last())
    &&& way_is_open(rules, abs, names)
}

proof fn images_of_child(rules: Rules, dir: ItemView, children: Children, c: int, image: ItemView)
    requires
        0 <= c < children.len(),
        admitted(rules, dir, entry_of(children[c])) matches Some(item) && (match children[c].1 {
            Node::Dir(sub) => tree_images(rules, item, sub).contains(image),
            _ => image == item,
        }),
    ensures
        tree_images(rules, dir, children).contains(image),
    decreases children.len(),
{
    let rest = children.drop_last();
    let first = tree_images(rules, dir, rest);
    let all = tree_images(rules, dir, children);
    if c < rest.len() {
        assert(rest[c] == children[c]);
        images_of_child(rules, dir, rest, c, image);
        let k = choose|k: int| 0 <= k < first.len() && first[k] == image;
        assert(all[k] == image);
    } else {
        let item = admitted(rules, dir, entry_of(children[c]))->0;
        match children[c].1 {
            Node::Dir(sub) => {
                let own = tree_images(rules, item, sub);
                let k = choose|k: int| 0 <= k < own.len() && own[k] == image;
                assert(all[first.len() + k] == image);
            },
            _ => {
                assert(all[first.len() as int] == image);
            },
        }
    }
}

/// A walk comes to every image of a tree, however deep it lies.
pub proof fn every_image_is_come_to(
    rules: Rules,
    dir: ItemView,
    children: Children,
    names: Seq<Seq<char>>,
)
    requires
        has_image(rules, dir.abs, children, names),
    ensures
        tree_images(rules, dir, children).contains(image_at(dir, names)),
    decreases names.len(),
{
    reveal_strlit("/");
    reveal_with_fuel(descended, 2);
    let places = choose|places: Seq<int>| #[trigger] leads_to(children, names, places);
    let c = places[0];
    let child = children[c];
    let name = names[0];
    assert(name.len() > 0 && name[0] != '.');
    assert("/"@ =~= seq!['/']);
    if names.len() == 1 {
        assert(names.last() == name);
        assert(names.drop_first() =~= Seq::<Seq<char>>::empty());
        let item = ItemView {
            rel: child_rel(dir.rel, name),
            abs: joined(dir.abs, encode_utf8(name)),
            dir: false,
        };
        assert(admitted(rules, dir, entry_of(child)) == Some(item));
        assert(descended(dir.abs, names) == descended(item.abs, names.drop_first()));
        assert(item == image_at(dir, names));
        images_of_child(rules, dir, children, c, item);
    } else {
        let rest = names.drop_first();
        let sub = child.1->Dir_0;
        let item = ItemView {
            rel: child_rel(dir.rel, name),
            abs: joined(dir.abs, encode_utf8(name)),
            dir: true,
        };
        assert(admitted(rules, dir, entry_of(child)) == Some(item));
        assert forall|i: int| 0 <= i < rest.len() implies (#[trigger] rest[i]).len() > 0
            && rest[i][0] != '.' by {
            assert(names[i + 1].len() > 0);
        }
        assert(rest.last() == names.last());
        assert(leads_to(sub, rest, places.drop_first()));
        every_image_is_come_to(rules, item, sub, rest);
        assert(image_at(item, rest).rel =~= image_at(dir, names).rel);
        assert(image_at(item, rest) == image_at(dir, names));
        images_of_child(rules, dir, children, c, image_at(dir, names));
    }
}

/// A walk comes to nothing but images of the tree.
pub proof fn only_images_are_come_to(
    rules: Rules,
    dir: ItemView,
    children: Children,
    image: ItemView,
) -> (names: Seq<Seq<char>>)
    requires
        names_are_plain(children),
        tree_images(rules, dir, children).contains(image),
    ensures
        has_image(rules, dir.abs, children, names),
        image == image_at(dir, names),
    decreases children,
{
    reveal_strlit("/");
    reveal_with_fuel(descended, 2);
    assert("/"@ =~= seq!['/']);
    let rest = children.drop_last();
    let last = children.last();
    let first = tree_images(rules, dir, rest);
    let all = tree_images(rules, dir, children);
    let k = choose|k: int| 0 <= k < all.len() && all[k] == image;
    if k < first.len() {
        assert(first[k] == image);
        let names = only_images_are_come_to(rules, dir, rest, image);
        let places = choose|places: Seq<int>| #[trigger] leads_to(rest, names, places);
        assert(children[places[0]] == rest[places[0]]);
        assert(leads_to(children, names, places));
        names
    } else {
        let item = admitted(rules, dir, entry_of(last))->0;
        let name = last.0->0;
        assert(children[children.len() - 1] == last);
        match last.1 {
            Node::Dir(sub) => {
                let own = tree_images(rules, item, sub);
                assert(own[k - first.len()] == image);
                let tail = only_images_are_come_to(rules, item, sub, image);
                let names = seq![name] + tail;
                assert(names.drop_first() =~= tail);
                assert(names.last() == tail.last());
                let below = choose|places: Seq<int>| #[trigger] leads_to(sub, tail, places);
                let places = seq![children.len() - 1] + below;
                assert(places.drop_first() =~= below);
                assert(leads_to(children, names, places));
                assert forall|i: int| 0 <= i < names.len() implies (#[trigger] names[i]).len() > 0
                    && names[i][0] != '.' by {
                    if i > 0 {
                        assert(names[i] == tail[i - 1]);
                    }
                }
                assert(image_at(item, tail).rel =~= image_at(dir, names).rel);
                names
            },
            _ => {
                let names = seq![name];
                assert(all[first.len() as int] == image);
                assert(names.drop_first() =~= Seq::<Seq<char>>::empty());
                assert(descended(dir.abs, names) == descended(item.abs, names.drop_first()));
                assert(leads_to(children, names, seq![children.len() - 1]));
                names
            },
        }
    }
}

/// Whether a listing is that of a directory with these entries.
pub open spec fn reads(listing: Listing, children: Children) -> bool {
    listing matches Listing::Entries(v) && v@.len() == children.len() && forall|i: int|
        0 <= i < children.len() ==> {
            &&& opt_text((#[trigger] v@[i]).name) == children[i].0
            &&& v@[i].kind == (match children[i].1 {
                Node::File => Some(EntryKind::File),
                Node::Dir(_) => Some(EntryKind::Dir),
                Node::Symlink => Some(EntryKind::Symlink),
                Node::Other => Some(EntryKind::Other),
                Node::Unknown => None,
            })
        }
}

/// A listing of a directory adds what the directory's entries add.
pub(crate) proof fn read_entries(
    rules: Rules,
    dir: ItemView,
    pending: Seq<ItemView>,
    listing: Listing,
    children: Children,
)
    requires
        reads(listing, children),
    ensures
        pending_after(rules, dir, pending, listing) == additions(rules, dir, entries_of(children))
            + pending,
        listing is Entries,
{
    let v = listing->Entries_0@;
    assert forall|i: int| 0 <= i < v.len() implies entry_views(v)[i] == entries_of(children)[i] by {
        assert(opt_text(v[i].name) == children[i].0);
    }
    assert(entry_views(v) =~= entries_of(children));
}

/// What is below the items that are pending after a directory was read.
pub open spec fn below_pending(
    rules: Rules,
    dir: ItemView,
    children: Children,
    forest: Seq<Children>,
) -> Seq<Children> {
    forest_of(rules, dir, children) + forest
}

/// Whether a search ends with `found` after at most `steps` questions, if each
/// directory that it asks for is answered from the tree. `children` is what the
/// directory asked for holds, `forest` what is below each pending item.
pub open spec fn search_ends(
    step: FindStep<'_>,
    children: Children,
    forest: Seq<Children>,
    found: Option<Seq<char>>,
    steps: nat,
) -> bool
    decreases steps,
{
    match step {
        FindStep::Failed => false,
        FindStep::Done(f) => opt_text(f) == found,
        FindStep::ReadDir(s) => steps > 0 && exists|listing: Listing, next: FindStep<'_>|
            #![trigger call_ensures(FindNext::listed, (s, listing), next)]
            reads(listing, children) && call_ensures(FindNext::listed, (s, listing), next) && {
                let f = below_pending(s.rules(), s.reading(), children, forest);
                let at = f.len() - 1 - (match next {
                    FindStep::ReadDir(n) => n.pending().len() as int,
                    _ => 0,
                });
                search_ends(next, f[at], f.skip(at + 1), found, (steps - 1) as nat)
            },
    }
}

pub(crate) proof fn left_over(
    rules: Rules,
    dir: ItemView,
    children: Children,
    pending: Seq<ItemView>,
    forest: Seq<Children>,
) -> (k: int)
    requires
        pending.len() == forest.len(),
    ensures
        ({
            let p = additions(rules, dir, entries_of(children)) + pending;
            let f = below_pending(rules, dir, children, forest);
            let all = tree_images(rules, dir, children) + images_left(rules, pending, forest);
            &&& k == images_ahead(p)
            &&& 0 <= k <= p.len()
            &&& p.len() == f.len()
            &&& k < p.len() ==> p[k].dir && all == p.take(k) + tree_images(rules, p[k], f[k])
                + images_left(rules, p.skip(k + 1), f.skip(k + 1))
            &&& k == p.len() ==> all == p.take(k)
        }),
{
    let a = additions(rules, dir, entries_of(children));
    let af = forest_of(rules, dir, children);
    let p = a + pending;
    let f = af + forest;
    let k = images_ahead(p) as int;
    forest_fits(rules, dir, children);
    tree_images_are_left(rules, dir, children);
    images_left_append(rules, a, af, pending, forest);
    images_ahead_in_range(p);
    images_at_front(rules, p, f, k);
    let all = tree_images(rules, dir, children) + images_left(rules, pending, forest);
    if k < p.len() {
        let pr = p.skip(k);
        let fr = f.skip(k);
        assert(pr.drop_first() =~= p.skip(k + 1));
        assert(fr.drop_first() =~= f.skip(k + 1));
        assert(pr[0] == p[k] && fr[0] == f[k]);
        assert(all =~= p.take(k) + tree_images(rules, p[k], f[k]) + images_left(
            rules,
            p.skip(k + 1),
            f.skip(k + 1),
        ));
    } else {
        assert(p.skip(k) =~= Seq::<ItemView>::empty());
        assert(all =~= p.take(k));
    }
    k
}

pub(crate) proof fn rels_append(a: Seq<ItemView>, b: Seq<ItemView>)
    ensures
        rels(a + b) == rels(a) + rels(b),
{
    assert(rels(a + b) =~= rels(a) + rels(b));
}

proof fn search_comes_to_all(
    s: FindNext<'_>,
    children: Children,
    forest: Seq<Children>,
    found: Option<Seq<char>>,
    steps: nat,
)
    requires
        s.pending().len() == forest.len(),
        search_ends(FindStep::ReadDir(s), children, forest, found, steps),
    ensures
        is_next(
            s.cfg().order,
            s.after(),
            s.seen() + rels(
                tree_images(s.rules(), s.reading(), children) + images_left(
                    s.rules(),
                    s.pending(),
                    forest,
                ),
            ),
            found,
        ),
    decreases steps,
{
    let rules = s.rules();
    let (listing, next) = choose|listing: Listing, next: FindStep<'_>|
        #![trigger call_ensures(FindNext::listed, (s, listing), next)]
        reads(listing, children) && call_ensures(FindNext::listed, (s, listing), next) && {
            let f = below_pending(s.rules(), s.reading(), children, forest);
            let at = f.len() - 1 - (match next {
                FindStep::ReadDir(n) => n.pending().len() as int,
                _ => 0,
            });
            search_ends(next, f[at], f.skip(at + 1), found, (steps - 1) as nat)
        };
    read_entries(rules, s.reading(), s.pending(), listing, children);
    let k = left_over(rules, s.reading(), children, s.pending(), forest);
    let p = additions(rules, s.reading(), entries_of(children)) + s.pending();
    let f = below_pending(rules, s.reading(), children, forest);
    let all = tree_images(rules, s.reading(), children) + images_left(rules, s.pending(), forest);
    match next {
        FindStep::ReadDir(n) => {
            search_comes_to_all(n, f[k], f.skip(k + 1), found, (steps - 1) as nat);
            let tail = tree_images(rules, p[k], f[k]) + images_left(
                rules,
                p.skip(k + 1),
                f.skip(k + 1),
            );
            assert(all =~= p.take(k) + tail);
            rels_append(p.take(k), tail);
            assert(s.seen() + rels(all) =~= n.seen() + rels(tail));
        },
        _ => {},
    }
}

/// A search for the next image that is answered from a tree ends with the first
/// image of the source after the one shown last, by the bytes of the relative
/// paths, or with none if there is none after it.
pub proof fn search_finds_the_next_image<'a>(
    cfg: &'a Config,
    after: Option<&str>,
    start: FindStep<'a>,
    children: Children,
    found: Option<Seq<char>>,
    steps: nat,
)
    requires
        call_ensures(find_next, (cfg, after), start),
        search_ends(start, children, Seq::empty(), found, steps),
        names_are_plain(children),
    ensures
        ({
            let images = |rel: Seq<char>|
                exists|names: Seq<Seq<char>>|
                    #[trigger] has_image(source_rules(*cfg), cfg.source_dir@, children, names)
                        && rel == slashed(names);
            let follows = |rel: Seq<char>|
                match after {
                    Some(a) => precedes(cfg.order, a@, rel),
                    None => true,
                };
            match found {
                Some(best) => {
                    &&& images(best)
                    &&& follows(best)
                    &&& forall|rel: Seq<char>| #[trigger]
                        images(rel) && follows(rel) ==> rel == best || precedes(
                            cfg.order,
                            best,
                            rel,
                        )
                },
                None => forall|rel: Seq<char>| #[trigger] images(rel) ==> !follows(rel),
            }
        }),
{
    let s = start->ReadDir_0;
    let rules = source_rules(*cfg);
    let root = root_item(cfg.source_dir@);
    let items = tree_images(rules, root, children);
    let none = Seq::<ItemView>::empty();
    search_comes_to_all(s, children, Seq::empty(), found, steps);
    assert(items + images_left(rules, none, Seq::empty()) =~= items);
    assert(s.seen() + rels(items) =~= rels(items));
    let all = rels(items);
    let images = |rel: Seq<char>|
        exists|names: Seq<Seq<char>>|
            #[trigger] has_image(rules, cfg.source_dir@, children, names) && rel == slashed(names);
    assert forall|rel: Seq<char>| #[trigger] images(rel) implies exists|i: int|
        0 <= i < all.len() && #[trigger] all[i] == rel by {
        let names = choose|names: Seq<Seq<char>>|
            #[trigger] has_image(rules, cfg.source_dir@, children, names) && rel == slashed(names);
        every_image_is_come_to(rules, root, children, names);
        let i = choose|i: int| 0 <= i < items.len() && items[i] == image_at(root, names);
        assert(all[i] == rel);
    }
    assert forall|i: int| 0 <= i < all.len() implies images(#[trigger] all[i]) by {
        assert(items.contains(items[i]));
        let names = only_images_are_come_to(rules, root, children, items[i]);
        assert(has_image(rules, cfg.source_dir@, children, names));
        assert(all[i] == slashed(names));
    }
    if found is Some {
        let i = choose|i: int| 0 <= i < all.len() && all[i] == found->0;
        assert(images(all[i]));
    }
}

/// Whether the text `a` comes before the text `b` in a direction.
pub open spec fn precedes(order: Order, a: Seq<char>, b: Seq<char>) -> bool {
    match order {
        Order::Asc => text_lt(a, b),
        Order::Desc => text_lt(b, a),
    }
}

/// Whether a count ends with `n` after at most `steps` questions, if each
/// directory that it asks for is answered from the tree.
pub open spec fn count_ends(
    step: CountStep<'_>,
    children: Children,
    forest: Seq<Children>,
    n: nat,
    steps: nat,
) -> bool
    decreases steps,
{
    match step {
        CountStep::Failed => false,
        CountStep::Done(c) => c as nat == n,
        CountStep::ReadDir(s) => steps > 0 && exists|listing: Listing, next: CountStep<'_>|
            #![trigger call_ensures(CountBacklog::listed, (s, listing), next)]
            reads(listing, children) && call_requires(CountBacklog::listed, (s, listing))
                && call_ensures(CountBacklog::listed, (s, listing), next) && {
                let f = below_pending(s.rules(), s.reading(), children, forest);
                let at = f.len() - 1 - (match next {
                    CountStep::ReadDir(n) => n.pending().len() as int,
                    _ => 0,
                });
                count_ends(next, f[at], f.skip(at + 1), n, (steps - 1) as nat)
            },
    }
}

proof fn count_comes_to_all(
    s: CountBacklog<'_>,
    children: Children,
    forest: Seq<Children>,
    n: nat,
    steps: nat,
)
    requires
        s.pending().len() == forest.len(),
        count_ends(CountStep::ReadDir(s), children, forest, n, steps),
    ensures
        n == s.counted() + (tree_images(s.rules(), s.reading(), children) + images_left(
            s.rules(),
            s.pending(),
            forest,
        )).len(),
    decreases steps,
{
    let rules = s.rules();
    let (listing, next) = choose|listing: Listing, next: CountStep<'_>|
        #![trigger call_ensures(CountBacklog::listed, (s, listing), next)]
        reads(listing, children) && call_requires(CountBacklog::listed, (s, listing))
            && call_ensures(CountBacklog::listed, (s, listing), next) && {
            let f = below_pending(s.rules(), s.reading(), children, forest);
            let at = f.len() - 1 - (match next {
                CountStep::ReadDir(n) => n.pending().len() as int,
                _ => 0,
            });
            count_ends(next, f[at], f.skip(at + 1), n, (steps - 1) as nat)
        };
    read_entries(rules, s.reading(), s.pending(), listing, children);
    let k = left_over(rules, s.reading(), children, s.pending(), forest);
    let f = below_pending(rules, s.reading(), children, forest);
    match next {
        CountStep::ReadDir(c) => {
            count_comes_to_all(c, f[k], f.skip(k + 1), n, (steps - 1) as nat);
        },
        _ => {},
    }
}

/// A count that is answered from a tree ends with the number of images of the
/// source.
pub proof fn count_is_that_of_the_images<'a>(
    cfg: &'a Config,
    start: CountStep<'a>,
    children: Children,
    n: nat,
    steps: nat,
)
    requires
        call_ensures(count_backlog, (cfg,), start),
        count_ends(start, children, Seq::empty(), n, steps),
    ensures
        n == tree_images(source_rules(*cfg), root_item(cfg.source_dir@), children).len(),
{
    let s = start->ReadDir_0;
    let rules = source_rules(*cfg);
    let items = tree_images(rules, root_item(cfg.source_dir@), children);
    count_comes_to_all(s, children, Seq::empty(), n, steps);
    assert(items + images_left(rules, Seq::empty(), Seq::empty()) =~= items);
}

/// Taking one more image into account keeps the better of it and the best so far,
/// and never takes one that does not follow the image shown last.
pub proof fn better_image_is_kept(
    rel: &str,
    after: Option<&str>,
    order: Order,
    best: &mut Option<String>,
)
    requires
        call_ensures(consider, (rel, after, order, best), ()),
    ensures
        ({
            let follows = after matches Some(a) ==> precedes(order, a@, rel@);
            let better = *old(best) matches Some(b) ==> precedes(order, rel@, b@);
            if follows && better {
                opt_text(*final(best)) == Some(rel@)
            } else {
                opt_text(*final(best)) == opt_text(*old(best))
            }
        }),
{
}

/// A walk of the source starts at the source directory.
pub proof fn walks_start_at_the_source<'a>(
    cfg: &'a Config,
    after: Option<&str>,
    start: FindStep<'a>,
    s: FindNext<'a>,
    dir: &Vec<u8>,
    count: CountStep<'a>,
    c: CountBacklog<'a>,
    count_dir: &Vec<u8>,
)
    requires
        call_ensures(find_next, (cfg, after), start),
        call_ensures(FindNext::dir, (&s,), dir),
        call_ensures(count_backlog, (cfg,), count),
        call_ensures(CountBacklog::dir, (&c,), count_dir),
    ensures
        start is ReadDir,
        start == FindStep::ReadDir(s) ==> dir@ == cfg.source_dir@,
        dir@ == s.reading().abs,
        count is ReadDir,
        count == CountStep::ReadDir(c) ==> count_dir@ == cfg.source_dir@,
        count_dir@ == c.reading().abs,
{
}

/// A walk fails if a directory cannot be read, and never otherwise.
pub proof fn unreadable_directory_stops_the_walk<'a>(
    s: FindNext<'a>,
    c: CountBacklog<'a>,
    listing: Listing,
    next: FindStep<'a>,
    count: CountStep<'a>,
)
    requires
        call_ensures(FindNext::listed, (s, listing), next),
        call_requires(CountBacklog::listed, (c, listing)),
        call_ensures(CountBacklog::listed, (c, listing), count),
    ensures
        next is Failed <==> listing is Failed,
        count is Failed <==> listing is Failed,
{
}

/// A directory that is gone by now counts as one without entries.
pub proof fn missing_directory_is_empty<'a>(
    s: FindNext<'a>,
    none: Vec<DirEntry>,
    gone: FindStep<'a>,
    empty: FindStep<'a>,
    c: CountBacklog<'a>,
    count_gone: CountStep<'a>,
    count_empty: CountStep<'a>,
)
    requires
        none@.len() == 0,
        call_ensures(FindNext::listed, (s, Listing::NotFound), gone),
        call_ensures(FindNext::listed, (s, Listing::Entries(none)), empty),
        call_ensures(CountBacklog::listed, (c, Listing::NotFound), count_gone),
        call_ensures(CountBacklog::listed, (c, Listing::Entries(none)), count_empty),
    ensures
        match (gone, empty) {
            (FindStep::Done(a), FindStep::Done(b)) => opt_text(a) == opt_text(b),
            (FindStep::ReadDir(a), FindStep::ReadDir(b)) => a.reading() == b.reading()
                && a.pending() == b.pending() && a.seen() == b.seen(),
            _ => false,
        },
        match (count_gone, count_empty) {
            (CountStep::Done(a), CountStep::Done(b)) => a == b,
            (CountStep::ReadDir(a), CountStep::ReadDir(b)) => a.reading() == b.reading()
                && a.pending() == b.pending() && a.counted() == b.counted(),
            _ => false,
        },
{
    let nothing = Listing::Entries(none);
    assert(entry_views(none@) =~= Seq::<EntryView>::empty());
    assert(pending_after(s.rules(), s.reading(), s.pending(), nothing) =~= s.pending());
    assert(pending_after(c.rules(), c.reading(), c.pending(), nothing) =~= c.pending());
    match (gone, empty) {
        (FindStep::Done(a), FindStep::Done(b)) => {
            let k = images_ahead(s.pending()) as int;
            let seen = s.seen() + rels(s.pending().take(k));
            next_is_unique(s.cfg().order, s.after(), seen, opt_text(a), opt_text(b));
        },
        _ => {},
    }
}

/// The count of a directory fits if all that is pending and all its entries could
/// be counted as well.
pub proof fn count_fits_up_to_the_largest_number<'a>(
    c: CountBacklog<'a>,
    entries: Vec<DirEntry>,
    r: bool,
    gone: bool,
)
    requires
        call_ensures(CountBacklog::fits, (&c, &Listing::Entries(entries)), r),
        call_ensures(CountBacklog::fits, (&c, &Listing::NotFound), gone),
    ensures
        r <==> c.counted() + c.pending().len() + entries@.len() <= usize::MAX,
        gone <==> c.counted() + c.pending().len() <= usize::MAX,
        r ==> call_requires(CountBacklog::listed, (c, Listing::Entries(entries))),
{
}

/// A walk comes to the images in the order of the entries: those of the first
/// entries of a directory, then those of the others.
pub proof fn images_come_in_the_order_of_entries(
    rules: Rules,
    dir: ItemView,
    first: Children,
    others: Children,
)
    ensures
        tree_images(rules, dir, first + others) == tree_images(rules, dir, first) + tree_images(
            rules,
            dir,
            others,
        ),
    decreases others.len(),
{
    let all = first + others;
    if others.len() > 0 {
        images_come_in_the_order_of_entries(rules, dir, first, others.drop_last());
        assert(all.drop_last() =~= first + others.drop_last());
        assert(all.last() == others.last());
        assert(tree_images(rules, dir, all) =~= tree_images(rules, dir, first) + tree_images(
            rules,
            dir,
            others,
        ));
    } else {
        assert(all =~= first);
        assert(tree_images(rules, dir, others) =~= Seq::<ItemView>::empty());
    }
}

} // verus!
