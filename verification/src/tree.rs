//! What a walk comes to in a directory tree.
//!
//! A tree is what the file system holds while a walk goes on, if nothing
//! changes meanwhile. A walk that is answered from a tree comes to exactly the
//! images of the tree: those in visible directories outside the pruned
//! subtrees, each of them once.

use crate::config::{ascending, Config, Order};
use crate::gallery::{
    are_pages, asked, desc_is_reverse_of_asc, described, entries_show_their_times,
    first_page_starts_the_listing, name_keys, ordered, page, pages_make_the_listing, stamp, taken_in,
    KeepSort, Key,
};
use crate::moves::candidate;
use crate::paths::{illegal_part, name_error, names_an_entry, source_verdict, PathError};
use crate::sample::{
    large_sample_is_everything, sample_has_its_size, sample_is_a_subset, sampled,
};
use crate::server::{base_of, keep_verdict, moved_file_stays_in_its_directory, Destination};
use crate::text::{ascii_byte_occurs, encode_append, first_byte, last_index, last_index_in_range};
use crate::unix_path::{
    all_parts, all_parts_append, components, dot, dot_dot, is_absolute, is_plain_name,
    join_name_appends, join_stays_under, joined, lead, segments, segments_at_slash,
    segments_of_name, under, Part, DOT, SLASH,
};
use crate::walk::{
    additions, admitted, child_rel, has_extension, images_ahead, is_run, keep_rules, rels, root_item,
    run_shows_every_image_once, same_texts, source_rules, EntryKind, EntryView, ItemView, Rules,
};
use vstd::prelude::*;
use vstd::utf8::{encode_utf8, is_ascii_chars, is_ascii_chars_encode_utf8};

verus! {

/// An entry of a directory, and what is below it.
pub enum Node {
    File,
    Dir(Seq<(Option<Seq<char>>, Node)>),
    Symlink,
    Other,
    /// It could not be found out what it is.
    Unknown,
}

/// The entries of a directory: their names, if they can be read, and nodes.
pub type Children = Seq<(Option<Seq<char>>, Node)>;

/// What an entry is read as.
pub open spec fn entry_of(child: (Option<Seq<char>>, Node)) -> EntryView {
    EntryView {
        name: child.0,
        kind: match child.1 {
            Node::File => Some(EntryKind::File),
            Node::Dir(_) => Some(EntryKind::Dir),
            Node::Symlink => Some(EntryKind::Symlink),
            Node::Other => Some(EntryKind::Other),
            Node::Unknown => None,
        },
    }
}

/// What a directory is read as.
pub open spec fn entries_of(children: Children) -> Seq<EntryView> {
    children.map_values(|c: (Option<Seq<char>>, Node)| entry_of(c))
}

/// The entries of a node, if it is a directory.
pub open spec fn below(node: Node) -> Children {
    match node {
        Node::Dir(children) => children,
        _ => Seq::empty(),
    }
}

/// The images below a directory, in the order of its entries, each
/// subdirectory's in its place.
pub open spec fn tree_images(rules: Rules, dir: ItemView, children: Children) -> Seq<ItemView>
    decreases children,
{
    if children.len() == 0 {
        Seq::empty()
    } else {
        tree_images(rules, dir, children.drop_last()) + (match admitted(
            rules,
            dir,
            entry_of(children.last()),
        ) {
            Some(item) => match children.last().1 {
                Node::Dir(sub) => tree_images(rules, item, sub),
                _ => seq![item],
            },
            None => Seq::empty(),
        })
    }
}

/// What is below each item that a directory adds to a walk.
pub open spec fn forest_of(rules: Rules, dir: ItemView, children: Children) -> Seq<Children>
    decreases children.len(),
{
    if children.len() == 0 {
        Seq::empty()
    } else {
        let before = forest_of(rules, dir, children.drop_last());
        match admitted(rules, dir, entry_of(children.last())) {
            Some(_) => before.push(below(children.last().1)),
            None => before,
        }
    }
}

/// The images that an item stands for.
pub open spec fn images_of(rules: Rules, item: ItemView, children: Children) -> Seq<ItemView> {
    if item.dir {
        tree_images(rules, item, children)
    } else {
        seq![item]
    }
}

/// The images that pending items stand for, given what is below each.
pub open spec fn images_left(rules: Rules, pending: Seq<ItemView>, forest: Seq<Children>) -> Seq<
    ItemView,
>
    decreases pending.len(),
{
    if pending.len() == 0 {
        Seq::empty()
    } else {
        images_of(rules, pending[0], forest[0]) + images_left(
            rules,
            pending.drop_first(),
            forest.drop_first(),
        )
    }
}

/// The images that a walk has come to when it ends, if each directory it asks
/// for is answered from the tree; `None` if it asks for more than `steps`. The
/// walk goes on as [`crate::walk::FindNext::listed`] states.
pub open spec fn walked(
    rules: Rules,
    dir: ItemView,
    children: Children,
    pending: Seq<ItemView>,
    forest: Seq<Children>,
    seen: Seq<ItemView>,
    steps: nat,
) -> Option<Seq<ItemView>>
    decreases steps,
{
    if steps == 0 {
        None
    } else {
        let p = additions(rules, dir, entries_of(children)) + pending;
        let f = forest_of(rules, dir, children) + forest;
        let k = images_ahead(p) as int;
        let now_seen = seen + p.take(k);
        if k == p.len() {
            Some(now_seen)
        } else {
            walked(rules, p[k], f[k], p.skip(k + 1), f.skip(k + 1), now_seen, (steps - 1) as nat)
        }
    }
}

/// How many entries there are in a tree.
pub open spec fn entry_count(children: Children) -> nat
    decreases children,
{
    if children.len() == 0 {
        0
    } else {
        entry_count(children.drop_last()) + 1 + (match children.last().1 {
            Node::Dir(sub) => entry_count(sub),
            _ => 0,
        })
    }
}

/// How many directories the pending items can lead to.
pub open spec fn dirs_left(pending: Seq<ItemView>, forest: Seq<Children>) -> nat
    decreases pending.len(),
{
    if pending.len() == 0 {
        0
    } else {
        (if pending[0].dir {
            1 + entry_count(forest[0])
        } else {
            0
        }) + dirs_left(pending.drop_first(), forest.drop_first())
    }
}

pub(crate) proof fn forest_fits(rules: Rules, dir: ItemView, children: Children)
    ensures
        forest_of(rules, dir, children).len() == additions(
            rules,
            dir,
            entries_of(children),
        ).len(),
    decreases children.len(),
{
    if children.len() > 0 {
        assert(entries_of(children).drop_last() =~= entries_of(children.drop_last()));
        forest_fits(rules, dir, children.drop_last());
    }
}

pub(crate) proof fn images_left_append(
    rules: Rules,
    p1: Seq<ItemView>,
    f1: Seq<Children>,
    p2: Seq<ItemView>,
    f2: Seq<Children>,
)
    requires
        p1.len() == f1.len(),
        p2.len() == f2.len(),
    ensures
        images_left(rules, p1 + p2, f1 + f2) == images_left(rules, p1, f1) + images_left(
            rules,
            p2,
            f2,
        ),
        dirs_left(p1 + p2, f1 + f2) == dirs_left(p1, f1) + dirs_left(p2, f2),
    decreases p1.len(),
{
    if p1.len() == 0 {
        assert(p1 + p2 =~= p2);
        assert(f1 + f2 =~= f2);
        assert(images_left(rules, p1, f1) + images_left(rules, p2, f2) =~= images_left(
            rules,
            p2,
            f2,
        ));
    } else {
        assert((p1 + p2).drop_first() =~= p1.drop_first() + p2);
        assert((f1 + f2).drop_first() =~= f1.drop_first() + f2);
        images_left_append(rules, p1.drop_first(), f1.drop_first(), p2, f2);
        assert(images_left(rules, p1 + p2, f1 + f2) =~= images_left(rules, p1, f1) + images_left(
            rules,
            p2,
            f2,
        ));
    }
}

/// A directory's images are those of the items that it adds.
pub(crate) proof fn tree_images_are_left(rules: Rules, dir: ItemView, children: Children)
    ensures
        tree_images(rules, dir, children) == images_left(
            rules,
            additions(rules, dir, entries_of(children)),
            forest_of(rules, dir, children),
        ),
        dirs_left(additions(rules, dir, entries_of(children)), forest_of(rules, dir, children))
            <= entry_count(children),
    decreases children.len(),
{
    if children.len() > 0 {
        let rest = children.drop_last();
        let last = children.last();
        assert(entries_of(children).drop_last() =~= entries_of(rest));
        assert(entries_of(children).last() == entry_of(last));
        tree_images_are_left(rules, dir, rest);
        forest_fits(rules, dir, rest);
        match admitted(rules, dir, entry_of(last)) {
            Some(item) => {
                let p = additions(rules, dir, entries_of(rest));
                let f = forest_of(rules, dir, rest);
                let b = below(last.1);
                images_left_append(rules, p, f, seq![item], seq![b]);
                assert(p.push(item) =~= p + seq![item]);
                assert(f.push(b) =~= f + seq![b]);
                reveal_with_fuel(images_left, 2);
                reveal_with_fuel(dirs_left, 2);
                assert(seq![item].drop_first() =~= Seq::<ItemView>::empty());
                assert(images_left(rules, seq![item], seq![b]) =~= images_of(rules, item, b));
                assert(tree_images(rules, dir, children) =~= images_left(rules, p + seq![item], f
                    + seq![b]));
            },
            None => {
                assert(tree_images(rules, dir, children) =~= tree_images(rules, dir, rest));
            },
        }
    }
}

pub(crate) proof fn images_ahead_in_range(p: Seq<ItemView>)
    ensures
        images_ahead(p) <= p.len(),
        forall|i: int| 0 <= i < images_ahead(p) ==> !(#[trigger] p[i]).dir,
        images_ahead(p) < p.len() ==> p[images_ahead(p) as int].dir,
    decreases p.len(),
{
    if p.len() > 0 && !p[0].dir {
        images_ahead_in_range(p.drop_first());
        assert forall|i: int| 0 <= i < images_ahead(p) implies !(#[trigger] p[i]).dir by {
            if i > 0 {
                assert(p[i] == p.drop_first()[i - 1]);
            }
        }
    }
}

/// Images at the front are left as they are.
pub(crate) proof fn images_at_front(rules: Rules, p: Seq<ItemView>, f: Seq<Children>, k: int)
    requires
        p.len() == f.len(),
        0 <= k <= p.len(),
        forall|i: int| 0 <= i < k ==> !(#[trigger] p[i]).dir,
    ensures
        images_left(rules, p, f) == p.take(k) + images_left(rules, p.skip(k), f.skip(k)),
        dirs_left(p, f) == dirs_left(p.skip(k), f.skip(k)),
    decreases k,
{
    if k == 0 {
        assert(p.skip(0) =~= p);
        assert(f.skip(0) =~= f);
        assert(p.take(0) + images_left(rules, p, f) =~= images_left(rules, p, f));
    } else {
        let pt = p.drop_first();
        let ft = f.drop_first();
        assert forall|i: int| 0 <= i < k - 1 implies !(#[trigger] pt[i]).dir by {
            assert(pt[i] == p[i + 1]);
        }
        images_at_front(rules, pt, ft, k - 1);
        assert(pt.skip(k - 1) =~= p.skip(k));
        assert(ft.skip(k - 1) =~= f.skip(k));
        assert(p.take(k) =~= seq![p[0]] + pt.take(k - 1));
        assert(images_left(rules, p, f) =~= p.take(k) + images_left(rules, p.skip(k), f.skip(k)));
    }
}

/// From any point on, a walk comes to what it has come to already, the images
/// below the directory that it asks for, and those of the pending items.
pub proof fn walk_comes_to_what_is_left(
    rules: Rules,
    dir: ItemView,
    children: Children,
    pending: Seq<ItemView>,
    forest: Seq<Children>,
    seen: Seq<ItemView>,
    steps: nat,
)
    requires
        pending.len() == forest.len(),
        steps > entry_count(children) + dirs_left(pending, forest),
    ensures
        walked(rules, dir, children, pending, forest, seen, steps) == Some(
            seen + tree_images(rules, dir, children) + images_left(rules, pending, forest),
        ),
    decreases steps,
{
    let a = additions(rules, dir, entries_of(children));
    let af = forest_of(rules, dir, children);
    let p = a + pending;
    let f = af + forest;
    let k = images_ahead(p) as int;
    let now_seen = seen + p.take(k);
    forest_fits(rules, dir, children);
    tree_images_are_left(rules, dir, children);
    images_left_append(rules, a, af, pending, forest);
    images_ahead_in_range(p);
    images_at_front(rules, p, f, k);
    let goal = seen + tree_images(rules, dir, children) + images_left(rules, pending, forest);
    assert(goal =~= seen + images_left(rules, p, f));
    if k == p.len() {
        assert(p.skip(k) =~= Seq::<ItemView>::empty());
        assert(now_seen =~= goal);
    } else {
        let pr = p.skip(k);
        let fr = f.skip(k);
        assert(pr.drop_first() =~= p.skip(k + 1));
        assert(fr.drop_first() =~= f.skip(k + 1));
        assert(pr[0] == p[k] && fr[0] == f[k]);
        walk_comes_to_what_is_left(
            rules,
            p[k],
            f[k],
            p.skip(k + 1),
            f.skip(k + 1),
            now_seen,
            (steps - 1) as nat,
        );
        assert(now_seen + tree_images(rules, p[k], f[k]) + images_left(
            rules,
            p.skip(k + 1),
            f.skip(k + 1),
        ) =~= goal);
    }
}

/// A walk of a tree ends, and has then come to exactly the images of the tree.
pub proof fn walk_comes_to_the_tree(rules: Rules, root: ItemView, children: Children)
    ensures
        walked(
            rules,
            root,
            children,
            Seq::empty(),
            Seq::empty(),
            Seq::empty(),
            entry_count(children) + 1,
        ) == Some(tree_images(rules, root, children)),
{
    let none = Seq::<ItemView>::empty();
    walk_comes_to_what_is_left(
        rules,
        root,
        children,
        none,
        Seq::empty(),
        none,
        entry_count(children) + 1,
    );
    assert(none + tree_images(rules, root, children) + images_left(rules, none, Seq::empty())
        =~= tree_images(rules, root, children));
}

/// The keys of images in a listing: sorted by name all of them, sorted by time
/// those whose times can be asked.
pub open spec fn image_keys(
    sort: KeepSort,
    time: spec_fn(Seq<u8>) -> Option<u64>,
    images: Seq<ItemView>,
) -> Seq<Key>
    decreases images.len(),
{
    if images.len() == 0 {
        Seq::empty()
    } else {
        let before = image_keys(sort, time, images.drop_last());
        let last = images.last();
        match sort {
            KeepSort::Name => before.push((0u64, last.rel)),
            KeepSort::Mtime => match time(last.abs) {
                Some(t) => before.push((t, last.rel)),
                None => before,
            },
        }
    }
}

/// The keys that a listing has come to when its page is settled, if each
/// directory it asks for is answered from the tree, and each file from `time`;
/// `None` if it asks for more than `steps`. The listing goes on as
/// [`crate::gallery::goes_on`] states.
pub open spec fn gathered(
    sort: KeepSort,
    time: spec_fn(Seq<u8>) -> Option<u64>,
    rules: Rules,
    pending: Seq<ItemView>,
    forest: Seq<Children>,
    seen: Seq<Key>,
    steps: nat,
) -> Option<Seq<Key>>
    decreases steps,
{
    let k = taken_in(sort, pending) as int;
    let now_seen = seen + name_keys(pending.take(k));
    if k == pending.len() {
        Some(now_seen)
    } else if steps == 0 {
        None
    } else if pending[k].dir {
        gathered(
            sort,
            time,
            rules,
            additions(rules, pending[k], entries_of(forest[k])) + pending.skip(k + 1),
            forest_of(rules, pending[k], forest[k]) + forest.skip(k + 1),
            now_seen,
            (steps - 1) as nat,
        )
    } else {
        gathered(
            sort,
            time,
            rules,
            pending.skip(k + 1),
            forest.skip(k + 1),
            match time(pending[k].abs) {
                Some(t) => now_seen.push((t, pending[k].rel)),
                None => now_seen,
            },
            (steps - 1) as nat,
        )
    }
}

pub(crate) proof fn image_keys_append(
    sort: KeepSort,
    time: spec_fn(Seq<u8>) -> Option<u64>,
    a: Seq<ItemView>,
    b: Seq<ItemView>,
)
    ensures
        image_keys(sort, time, a + b) == image_keys(sort, time, a) + image_keys(sort, time, b),
    decreases b.len(),
{
    if b.len() == 0 {
        assert(a + b =~= a);
        assert(image_keys(sort, time, a) + image_keys(sort, time, b) =~= image_keys(
            sort,
            time,
            a,
        ));
    } else {
        assert((a + b).drop_last() =~= a + b.drop_last());
        image_keys_append(sort, time, a, b.drop_last());
        assert(image_keys(sort, time, a + b) =~= image_keys(sort, time, a) + image_keys(
            sort,
            time,
            b,
        ));
    }
}

pub(crate) proof fn name_keys_are_keys(time: spec_fn(Seq<u8>) -> Option<u64>, images: Seq<ItemView>)
    ensures
        image_keys(KeepSort::Name, time, images) == name_keys(images),
    decreases images.len(),
{
    if images.len() > 0 {
        name_keys_are_keys(time, images.drop_last());
    }
    assert(image_keys(KeepSort::Name, time, images) =~= name_keys(images));
}

/// How much a listing has to ask about the pending items at most.
pub open spec fn questions_left(pending: Seq<ItemView>, forest: Seq<Children>) -> nat
    decreases pending.len(),
{
    if pending.len() == 0 {
        0
    } else {
        1 + (if pending[0].dir {
            entry_count(forest[0])
        } else {
            0
        }) + questions_left(pending.drop_first(), forest.drop_first())
    }
}

proof fn questions_append(
    p1: Seq<ItemView>,
    f1: Seq<Children>,
    p2: Seq<ItemView>,
    f2: Seq<Children>,
)
    requires
        p1.len() == f1.len(),
        p2.len() == f2.len(),
    ensures
        questions_left(p1 + p2, f1 + f2) == questions_left(p1, f1) + questions_left(p2, f2),
    decreases p1.len(),
{
    if p1.len() == 0 {
        assert(p1 + p2 =~= p2);
        assert(f1 + f2 =~= f2);
    } else {
        assert((p1 + p2).drop_first() =~= p1.drop_first() + p2);
        assert((f1 + f2).drop_first() =~= f1.drop_first() + f2);
        questions_append(p1.drop_first(), f1.drop_first(), p2, f2);
    }
}

proof fn questions_of_a_directory(rules: Rules, dir: ItemView, children: Children)
    ensures
        questions_left(
            additions(rules, dir, entries_of(children)),
            forest_of(rules, dir, children),
        ) <= entry_count(children),
    decreases children.len(),
{
    if children.len() > 0 {
        let rest = children.drop_last();
        let last = children.last();
        assert(entries_of(children).drop_last() =~= entries_of(rest));
        assert(entries_of(children).last() == entry_of(last));
        questions_of_a_directory(rules, dir, rest);
        forest_fits(rules, dir, rest);
        match admitted(rules, dir, entry_of(last)) {
            Some(item) => {
                let p = additions(rules, dir, entries_of(rest));
                let f = forest_of(rules, dir, rest);
                let b = below(last.1);
                questions_append(p, f, seq![item], seq![b]);
                assert(p.push(item) =~= p + seq![item]);
                assert(f.push(b) =~= f + seq![b]);
                reveal_with_fuel(questions_left, 2);
                assert(seq![item].drop_first() =~= Seq::<ItemView>::empty());
            },
            None => {},
        }
    }
}

/// From any point on, a listing comes to what it has come to already and to the
/// images of the pending items.
pub proof fn listing_comes_to_what_is_left(
    sort: KeepSort,
    time: spec_fn(Seq<u8>) -> Option<u64>,
    rules: Rules,
    pending: Seq<ItemView>,
    forest: Seq<Children>,
    seen: Seq<Key>,
    steps: nat,
)
    requires
        pending.len() == forest.len(),
        steps >= questions_left(pending, forest),
    ensures
        gathered(sort, time, rules, pending, forest, seen, steps) == Some(
            seen + image_keys(sort, time, images_left(rules, pending, forest)),
        ),
    decreases steps,
{
    let k = taken_in(sort, pending) as int;
    let front = pending.take(k);
    let now_seen = seen + name_keys(front);
    let goal = seen + image_keys(sort, time, images_left(rules, pending, forest));
    images_ahead_in_range(pending);
    images_at_front(rules, pending, forest, k);
    let p = pending.skip(k);
    let f = forest.skip(k);
    let left = images_left(rules, p, f);
    image_keys_append(sort, time, front, left);
    if sort == KeepSort::Name {
        name_keys_are_keys(time, front);
    } else {
        assert(front =~= Seq::<ItemView>::empty());
        assert(name_keys(front) =~= image_keys(sort, time, front));
    }
    assert(goal =~= now_seen + image_keys(sort, time, left));
    questions_append(front, forest.take(k), p, f);
    assert(front + p =~= pending);
    assert(forest.take(k) + f =~= forest);
    if k == pending.len() {
        assert(left =~= Seq::<ItemView>::empty());
        assert(now_seen =~= goal);
    } else {
        let item = pending[k];
        let pr = pending.skip(k + 1);
        let fr = forest.skip(k + 1);
        assert(p.drop_first() =~= pr);
        assert(f.drop_first() =~= fr);
        assert(p[0] == item && f[0] == forest[k]);
        let own = images_of(rules, item, forest[k]);
        image_keys_append(sort, time, own, images_left(rules, pr, fr));
        if item.dir {
            let a = additions(rules, item, entries_of(forest[k]));
            let af = forest_of(rules, item, forest[k]);
            forest_fits(rules, item, forest[k]);
            tree_images_are_left(rules, item, forest[k]);
            images_left_append(rules, a, af, pr, fr);
            questions_append(a, af, pr, fr);
            questions_of_a_directory(rules, item, forest[k]);
            listing_comes_to_what_is_left(
                sort,
                time,
                rules,
                a + pr,
                af + fr,
                now_seen,
                (steps - 1) as nat,
            );
        } else {
            let more = match time(item.abs) {
                Some(t) => now_seen.push((t, item.rel)),
                None => now_seen,
            };
            listing_comes_to_what_is_left(
                sort,
                time,
                rules,
                pr,
                fr,
                more,
                (steps - 1) as nat,
            );
            reveal_with_fuel(image_keys, 2);
            assert(seq![item].drop_last() =~= Seq::<ItemView>::empty());
            assert(more + image_keys(sort, time, images_left(rules, pr, fr)) =~= goal);
        }
    }
}

/// A listing of a tree ends, and its page is then settled on the keys of exactly
/// the images of the tree.
pub proof fn listing_comes_to_the_tree(
    sort: KeepSort,
    time: spec_fn(Seq<u8>) -> Option<u64>,
    rules: Rules,
    root: ItemView,
    children: Children,
)
    requires
        root.dir,
    ensures
        gathered(
            sort,
            time,
            rules,
            seq![root],
            seq![children],
            Seq::empty(),
            entry_count(children) + 1,
        ) == Some(image_keys(sort, time, tree_images(rules, root, children))),
{
    reveal_with_fuel(questions_left, 2);
    reveal_with_fuel(images_left, 2);
    assert(seq![root].drop_first() =~= Seq::<ItemView>::empty());
    listing_comes_to_what_is_left(
        sort,
        time,
        rules,
        seq![root],
        seq![children],
        Seq::empty(),
        entry_count(children) + 1,
    );
    let images = tree_images(rules, root, children);
    assert(images_left(rules, seq![root], seq![children]) =~= images);
    assert(Seq::<Key>::empty() + image_keys(sort, time, images) =~= image_keys(
        sort,
        time,
        images,
    ));
}

/// Whether every name in the tree is one that a file system can hold: not empty
/// and without a slash.
pub open spec fn names_are_plain(children: Children) -> bool
    decreases children,
{
    children.len() > 0 ==> {
        &&& names_are_plain(children.drop_last())
        &&& children.last().0 matches Some(name) ==> name.len() > 0 && !name.contains('/')
        &&& match children.last().1 {
            Node::Dir(sub) => names_are_plain(sub),
            _ => true,
        }
    }
}

/// The last name of a relative path.
pub open spec fn base_name(rel: Seq<char>) -> Seq<char> {
    match last_index(rel, '/') {
        Some(i) => rel.skip(i + 1),
        None => rel,
    }
}

/// Whether no name of a relative path is hidden or empty.
pub open spec fn is_visible(rel: Seq<char>) -> bool {
    &&& rel.len() > 0
    &&& rel[0] != '.'
    &&& rel[0] != '/'
    &&& forall|i: int|
        0 <= i < rel.len() && #[trigger] rel[i] == '/' ==> i + 1 < rel.len() && rel[i + 1] != '.'
            && rel[i + 1] != '/'
}

/// Whether a relative path consists of names, with no `.` and no `..` in it.
pub open spec fn has_only_names(path: Seq<char>) -> bool {
    &&& components(encode_utf8(path)).len() > 0
    &&& forall|i: int|
        0 <= i < components(encode_utf8(path)).len() ==> #[trigger] components(
            encode_utf8(path),
        )[i] is Normal
}

/// Whether an image is one that a walk from `dir` may come to: it is at `path`
/// below it, in no hidden directory, has an allowed extension, and is in no
/// pruned subtree that `dir` is not in.
pub open spec fn is_proper(rules: Rules, dir: ItemView, image: ItemView, path: Seq<char>) -> bool {
    &&& !image.dir
    &&& image.rel == child_rel(dir.rel, path)
    &&& image.abs == joined(dir.abs, encode_utf8(path))
    &&& is_visible(path)
    &&& has_only_names(path)
    &&& has_extension(rules.extensions, base_name(path))
    &&& forall|i: int|
        0 <= i < rules.prune.len() && !under(dir.abs, #[trigger] rules.prune[i]) && under(
            image.abs,
            rules.prune[i],
        ) ==> components(image.abs) == components(rules.prune[i])
}

/// A name that is not hidden is one component.
proof fn visible_name_is_plain(name: Seq<char>)
    requires
        name.len() > 0,
        name[0] != '.',
        !name.contains('/'),
    ensures
        is_plain_name(encode_utf8(name)),
        !is_absolute(encode_utf8(name)),
        encode_utf8(name).last() != SLASH,
{
    first_byte(name, '.');
    first_byte(name, '/');
    ascii_byte_occurs(name, '/');
    let e = encode_utf8(name);
    assert(e.contains(e[0]));
    assert(e.contains(e.last()));
    assert(dot()[0] == DOT && dot_dot()[0] == DOT);
}

/// A name that is not hidden is a path of one name.
proof fn visible_name_is_a_path(name: Seq<char>)
    requires
        name.len() > 0,
        name[0] != '.',
        !name.contains('/'),
    ensures
        components(encode_utf8(name)) == seq![Part::Normal(encode_utf8(name))],
        has_only_names(name),
{
    let n = encode_utf8(name);
    visible_name_is_plain(name);
    first_byte(name, '.');
    segments_of_name(n);
    reveal_with_fuel(all_parts, 2);
    assert(all_parts(segments(n)) =~= seq![Part::Normal(n)]);
    assert(components(n) =~= seq![Part::Normal(n)]);
}

/// A path below a name that is not hidden consists of names if the path does.
proof fn path_below_name(name: Seq<char>, path: Seq<char>)
    requires
        name.len() > 0,
        name[0] != '.',
        !name.contains('/'),
        is_visible(path),
        has_only_names(path),
    ensures
        has_only_names(name + "/"@ + path),
{
    reveal_strlit("/");
    let n = encode_utf8(name);
    let p = encode_utf8(path);
    visible_name_is_a_path(name);
    visible_name_is_plain(name);
    first_byte(name, '.');
    first_byte(path, '.');
    first_byte(path, '/');
    encode_append(name + "/"@, path);
    encode_append(name, "/"@);
    assert(is_ascii_chars("/"@));
    is_ascii_chars_encode_utf8("/"@);
    assert(encode_utf8("/"@) =~= seq![SLASH]);
    let whole = encode_utf8(name + "/"@ + path);
    assert(whole =~= n.push(SLASH) + p);
    segments_at_slash(n, p);
    all_parts_append(segments(n), segments(p));
    assert(components(n) =~= all_parts(segments(n)));
    assert(components(p) =~= all_parts(segments(p)));
    assert(whole[0] == n[0]);
    assert(lead(whole) =~= Seq::<Part>::empty());
    assert(components(whole) =~= components(n) + components(p));
}

proof fn no_slash_no_index(s: Seq<char>)
    requires
        !s.contains('/'),
    ensures
        last_index(s, '/') is None,
    decreases s.len(),
{
    if s.len() > 0 {
        assert(s.contains(s.last()));
        assert forall|i: int| 0 <= i < s.drop_last().len() implies s.drop_last()[i] != '/' by {
            assert(s.contains(s[i]));
        }
        no_slash_no_index(s.drop_last());
    }
}

/// The last slash of a longer path is that of its tail, if the tail has one.
proof fn last_index_of_tail(a: Seq<char>, b: Seq<char>)
    ensures
        last_index(a + b, '/') == (match last_index(b, '/') {
            Some(i) => Some(a.len() + i),
            None => last_index(a, '/'),
        }),
    decreases b.len(),
{
    if b.len() == 0 {
        assert(a + b =~= a);
    } else {
        assert((a + b).drop_last() =~= a + b.drop_last());
        last_index_of_tail(a, b.drop_last());
    }
}

/// A path below a name ends as the path does.
proof fn base_name_below(name: Seq<char>, path: Seq<char>)
    ensures
        base_name(name + "/"@ + path) == base_name(path),
{
    reveal_strlit("/");
    let head = name + "/"@;
    last_index_of_tail(head, path);
    last_index_in_range(path, '/');
    assert(head.last() == '/');
    match last_index(path, '/') {
        Some(i) => {
            assert((head + path).skip(head.len() + i + 1) =~= path.skip(i + 1));
        },
        None => {
            assert((head + path).skip(head.len() as int) =~= path);
        },
    }
}

/// Joining a name and then a path is joining the path below the name.
proof fn join_twice(base: Seq<u8>, name: Seq<char>, path: Seq<char>)
    requires
        name.len() > 0,
        name[0] != '.',
        !name.contains('/'),
        is_visible(path),
    ensures
        joined(joined(base, encode_utf8(name)), encode_utf8(path)) == joined(
            base,
            encode_utf8(name + "/"@ + path),
        ),
{
    reveal_strlit("/");
    visible_name_is_plain(name);
    first_byte(path, '/');
    first_byte(name + "/"@ + path, '/');
    assert((name + "/"@ + path)[0] == name[0]);
    assert(name.contains(name[0]));
    encode_append(name + "/"@, path);
    encode_append(name, "/"@);
    assert(is_ascii_chars("/"@));
    is_ascii_chars_encode_utf8("/"@);
    assert(encode_utf8("/"@) =~= seq![SLASH]);
    let n = encode_utf8(name);
    let p = encode_utf8(path);
    assert(encode_utf8(name + "/"@ + path) =~= n + seq![SLASH] + p);
    let once = joined(base, n);
    assert(once.last() == n.last());
    assert(joined(once, p) =~= joined(base, n + seq![SLASH] + p));
}

/// A file in a directory is in a pruned subtree only if the directory is, or if
/// it is that subtree's root itself.
proof fn file_is_pruned_with_dir(dir: Seq<u8>, name: Seq<u8>, prune: Seq<u8>)
    requires
        dir.len() > 0,
        is_plain_name(name),
        !under(dir, prune),
        under(joined(dir, name), prune),
    ensures
        components(joined(dir, name)) == components(prune),
{
    join_name_appends(dir, name);
    let c = components(joined(dir, name));
    let d = components(dir);
    let p = components(prune);
    assert(c.subrange(0, p.len() as int) =~= p);
    if p.len() <= d.len() {
        assert(d.subrange(0, p.len() as int) =~= p);
    }
    assert(c =~= p);
}

/// Every image that a walk comes to is at a visible path below the root, has an
/// allowed extension, and is in no pruned subtree that the root is not in.
pub proof fn tree_images_are_proper(rules: Rules, dir: ItemView, children: Children, i: int)
    requires
        names_are_plain(children),
        dir.abs.len() > 0,
        0 <= i < tree_images(rules, dir, children).len(),
    ensures
        exists|path: Seq<char>|
            #[trigger] is_proper(rules, dir, tree_images(rules, dir, children)[i], path),
    decreases children,
{
    let rest = children.drop_last();
    let last = children.last();
    let first = tree_images(rules, dir, rest);
    if i < first.len() {
        tree_images_are_proper(rules, dir, rest, i);
        let path = choose|path: Seq<char>| #[trigger] is_proper(rules, dir, first[i], path);
        assert(is_proper(rules, dir, tree_images(rules, dir, children)[i], path));
    } else {
        let item = admitted(rules, dir, entry_of(last))->0;
        let name = last.0->0;
        assert(name[0] != '.');
        visible_name_is_plain(name);
        join_name_appends(dir.abs, encode_utf8(name));
        let image = tree_images(rules, dir, children)[i];
        match last.1 {
            Node::Dir(sub) => {
                let j = i - first.len();
                assert(image == tree_images(rules, item, sub)[j]);
                assert(item.abs.len() > 0) by {
                    assert(encode_utf8(name).len() > 0);
                }
                tree_images_are_proper(rules, item, sub, j);
                let tail = choose|path: Seq<char>| #[trigger] is_proper(rules, item, image, path);
                let path = name + "/"@ + tail;
                reveal_strlit("/");
                join_twice(dir.abs, name, tail);
                base_name_below(name, tail);
                path_below_name(name, tail);
                assert(image.rel == child_rel(dir.rel, path)) by {
                    assert(image.rel =~= child_rel(dir.rel, path));
                }
                assert(is_visible(path)) by {
                    assert(path[0] == name[0]);
                    assert(name.contains(name[0]));
                    assert forall|k: int|
                        0 <= k < path.len() && #[trigger] path[k] == '/' implies k + 1 < path.len()
                        && path[k + 1] != '.' && path[k + 1] != '/' by {
                        if k < name.len() {
                            assert(name.contains(name[k]));
                        } else if k == name.len() {
                            assert(path[k + 1] == tail[0]);
                        } else {
                            let m = k - name.len() - 1;
                            assert(tail[m] == '/');
                            assert(path[k + 1] == tail[m + 1]);
                        }
                    }
                }
                assert(is_proper(rules, dir, image, path)) by {
                    assert forall|q: int|
                        0 <= q < rules.prune.len() && !under(dir.abs, #[trigger] rules.prune[q])
                            && under(image.abs, rules.prune[q]) implies components(image.abs)
                        == components(rules.prune[q]) by {
                        assert(!under(item.abs, rules.prune[q]));
                    }
                }
            },
            _ => {
                assert(image == item);
                visible_name_is_a_path(name);
                no_slash_no_index(name);
                assert(is_visible(name)) by {
                    assert(name.contains(name[0]));
                    assert forall|k: int| 0 <= k < name.len() && #[trigger] name[k] == '/' implies k
                        + 1 < name.len() && name[k + 1] != '.' && name[k + 1] != '/' by {
                        assert(name.contains(name[k]));
                    }
                }
                assert(is_proper(rules, dir, image, name)) by {
                    assert forall|q: int|
                        0 <= q < rules.prune.len() && !under(dir.abs, #[trigger] rules.prune[q])
                            && under(image.abs, rules.prune[q]) implies components(image.abs)
                        == components(rules.prune[q]) by {
                        file_is_pruned_with_dir(dir.abs, encode_utf8(name), rules.prune[q]);
                    }
                }
            },
        }
    }
}

/// Whether no directory of the tree holds a name twice.
pub open spec fn names_differ(children: Children) -> bool
    decreases children,
{
    children.len() > 0 ==> {
        &&& names_differ(children.drop_last())
        &&& children.last().0 is Some ==> forall|i: int|
            0 <= i < children.len() - 1 ==> #[trigger] children[i].0 != children.last().0
        &&& match children.last().1 {
            Node::Dir(sub) => names_differ(sub),
            _ => true,
        }
    }
}

/// Whether the first name of a relative path is `name`.
pub open spec fn starts_at(path: Seq<char>, name: Seq<char>) -> bool {
    path == name || (name.len() < path.len() && path.take(name.len() as int) == name
        && path[name.len() as int] == '/')
}

/// A path has one first name.
proof fn first_name_is_unique(path: Seq<char>, a: Seq<char>, b: Seq<char>)
    requires
        starts_at(path, a),
        starts_at(path, b),
        !a.contains('/'),
        !b.contains('/'),
    ensures
        a == b,
{
    if a.len() < b.len() {
        assert(b[a.len() as int] == path[a.len() as int]) by {
            assert(path.take(b.len() as int) =~= b);
        }
        assert(b.contains(b[a.len() as int]));
    } else if b.len() < a.len() {
        assert(a[b.len() as int] == path[b.len() as int]) by {
            assert(path.take(a.len() as int) =~= a);
        }
        assert(a.contains(a[b.len() as int]));
    } else {
        assert(path.take(a.len() as int) =~= a);
        assert(path.take(b.len() as int) =~= b);
    }
}

/// Whether an image is reached through the entry `j` of a directory.
spec fn is_through(dir: ItemView, children: Children, image: ItemView, j: int, path: Seq<char>) -> bool {
    &&& 0 <= j < children.len()
    &&& image.rel == child_rel(dir.rel, path)
    &&& children[j].0 matches Some(name) && starts_at(path, name) && !name.contains('/')
        && name.len() > 0
}

/// Every image is reached through an entry of the directory.
proof fn images_are_through(rules: Rules, dir: ItemView, children: Children, i: int)
    requires
        names_are_plain(children),
        dir.abs.len() > 0,
        0 <= i < tree_images(rules, dir, children).len(),
    ensures
        exists|j: int, path: Seq<char>|
            #[trigger] is_through(dir, children, tree_images(rules, dir, children)[i], j, path),
        i >= tree_images(rules, dir, children.drop_last()).len() ==> exists|path: Seq<char>|
            #[trigger] is_through(
                dir,
                children,
                tree_images(rules, dir, children)[i],
                children.len() - 1,
                path,
            ),
    decreases children,
{
    let rest = children.drop_last();
    let last = children.last();
    let first = tree_images(rules, dir, rest);
    let image = tree_images(rules, dir, children)[i];
    if i < first.len() {
        images_are_through(rules, dir, rest, i);
        let (j, path) = choose|j: int, path: Seq<char>|
            #[trigger] is_through(dir, rest, first[i], j, path);
        assert(rest[j] == children[j]);
        assert(is_through(dir, children, image, j, path));
    } else {
        let item = admitted(rules, dir, entry_of(last))->0;
        let name = last.0->0;
        match last.1 {
            Node::Dir(sub) => {
                visible_name_is_plain(name);
                tree_images_are_proper(rules, item, sub, i - first.len());
                let tail = choose|path: Seq<char>| #[trigger] is_proper(rules, item, image, path);
                let path = name + "/"@ + tail;
                reveal_strlit("/");
                assert(image.rel =~= child_rel(dir.rel, path));
                assert(path.take(name.len() as int) =~= name);
                assert(is_through(dir, children, image, children.len() - 1, path));
            },
            _ => {
                assert(is_through(dir, children, image, children.len() - 1, name));
            },
        }
    }
}

/// A walk comes to no relative path twice.
pub proof fn tree_rels_are_distinct(rules: Rules, dir: ItemView, children: Children)
    requires
        names_are_plain(children),
        names_differ(children),
        dir.abs.len() > 0,
    ensures
        rels(tree_images(rules, dir, children)).no_duplicates(),
    decreases children,
{
    if children.len() > 0 {
        let rest = children.drop_last();
        let last = children.last();
        let first = tree_images(rules, dir, rest);
        let all = tree_images(rules, dir, children);
        tree_rels_are_distinct(rules, dir, rest);
        if admitted(rules, dir, entry_of(last)) is Some && last.1 is Dir {
            let item = admitted(rules, dir, entry_of(last))->0;
            visible_name_is_plain(last.0->0);
            tree_rels_are_distinct(rules, item, last.1->Dir_0);
        }
        assert forall|a: int, b: int| 0 <= a < b < all.len() implies #[trigger] rels(all)[a]
            != #[trigger] rels(all)[b] by {
            if b < first.len() {
                assert(rels(first)[a] == rels(all)[a]);
                assert(rels(first)[b] == rels(all)[b]);
            } else if a >= first.len() {
                let own = rels(tree_images(rules, admitted(rules, dir, entry_of(last))->0, below(last.1)));
                if last.1 is Dir {
                    assert(own[a - first.len()] == rels(all)[a]);
                    assert(own[b - first.len()] == rels(all)[b]);
                }
            } else {
                images_are_through(rules, dir, rest, a);
                images_are_through(rules, dir, children, b);
                let (j, p) = choose|j: int, path: Seq<char>|
                    #[trigger] is_through(dir, rest, first[a], j, path);
                let q = choose|path: Seq<char>|
                    #[trigger] is_through(dir, children, all[b], children.len() - 1, path);
                assert(all[a] == first[a]);
                assert(children[j] == rest[j]);
                if rels(all)[a] == rels(all)[b] {
                    same_child_same_path(dir.rel, p, q);
                    first_name_is_unique(p, children[j].0->0, last.0->0);
                }
            }
        }
    }
}

/// Different paths below a directory are different paths from the root.
proof fn same_child_same_path(rel: Seq<char>, p: Seq<char>, q: Seq<char>)
    requires
        child_rel(rel, p) == child_rel(rel, q),
    ensures
        p == q,
{
    if rel.len() > 0 {
        let head = rel + "/"@;
        assert((head + p).skip(head.len() as int) =~= p);
        assert((head + q).skip(head.len() as int) =~= q);
    }
}

/// A name without `..` is acceptable as such.
proof fn names_are_acceptable(parts: Seq<Part>)
    requires
        forall|i: int| 0 <= i < parts.len() ==> #[trigger] parts[i] is Normal,
    ensures
        illegal_part(parts) is None,
    decreases parts.len(),
{
    if parts.len() > 0 {
        assert(parts[0] is Normal);
        assert forall|i: int| 0 <= i < parts.drop_first().len() implies #[trigger] parts.drop_first()[i] is Normal by {
            assert(parts.drop_first()[i] == parts[i + 1]);
        }
        names_are_acceptable(parts.drop_first());
    }
}

/// Every image that is shown can be asked for by the relative path that it is
/// shown under: the name is accepted, and resolves to the image. The source must
/// not be below keep or trash, and no image can be at the path of keep or trash
/// itself.
pub proof fn shown_image_is_accepted(cfg: Config, children: Children, i: int)
    requires
        names_are_plain(children),
        cfg.source_dir@.len() > 0,
        !under(cfg.source_dir@, cfg.keep_dir@),
        !under(cfg.source_dir@, cfg.trash_dir@),
        0 <= i < tree_images(
            source_rules(cfg),
            root_item(cfg.source_dir@),
            children,
        ).len(),
        ({
            let image = tree_images(source_rules(cfg), root_item(cfg.source_dir@), children)[i];
            &&& components(image.abs) != components(cfg.keep_dir@)
            &&& components(image.abs) != components(cfg.trash_dir@)
        }),
    ensures
        ({
            let image = tree_images(source_rules(cfg), root_item(cfg.source_dir@), children)[i];
            &&& image.abs == joined(cfg.source_dir@, encode_utf8(image.rel))
            &&& source_verdict(cfg, encode_utf8(image.rel), Some(image.abs)) == Ok::<
                Seq<u8>,
                PathError,
            >(image.abs)
        }),
{
    let rules = source_rules(cfg);
    let root = root_item(cfg.source_dir@);
    let image = tree_images(rules, root, children)[i];
    tree_images_are_proper(rules, root, children, i);
    let path = choose|path: Seq<char>| #[trigger] is_proper(rules, root, image, path);
    assert(image.rel == path);
    let bytes = encode_utf8(path);
    names_are_acceptable(components(bytes));
    first_byte(path, '/');
    join_stays_under(cfg.source_dir@, bytes);
    assert(rules.prune[0] == cfg.keep_dir@);
    assert(rules.prune[1] == cfg.trash_dir@);
}

/// Every kept image can be asked for by the relative path that it is listed
/// under.
pub proof fn kept_image_is_accepted(cfg: Config, children: Children, i: int)
    requires
        names_are_plain(children),
        cfg.keep_dir@.len() > 0,
        0 <= i < tree_images(keep_rules(cfg), root_item(cfg.keep_dir@), children).len(),
    ensures
        ({
            let image = tree_images(keep_rules(cfg), root_item(cfg.keep_dir@), children)[i];
            &&& image.abs == joined(cfg.keep_dir@, encode_utf8(image.rel))
            &&& keep_verdict(cfg, encode_utf8(image.rel), Some(image.abs)) == Ok::<
                Seq<u8>,
                PathError,
            >(image.abs)
        }),
{
    let rules = keep_rules(cfg);
    let root = root_item(cfg.keep_dir@);
    let image = tree_images(rules, root, children)[i];
    tree_images_are_proper(rules, root, children, i);
    let path = choose|path: Seq<char>| #[trigger] is_proper(rules, root, image, path);
    assert(image.rel == path);
    names_are_acceptable(components(encode_utf8(path)));
    first_byte(path, '/');
    join_stays_under(cfg.keep_dir@, encode_utf8(path));
}

/// A file that a request moved to keep or trash is not shown any more, wherever
/// there it was put.
pub proof fn moved_image_is_not_shown(
    cfg: Config,
    children: Children,
    i: int,
    rel: Seq<char>,
    dest: Destination,
    n: nat,
)
    requires
        names_are_plain(children),
        cfg.source_dir@.len() > 0,
        !under(cfg.source_dir@, cfg.keep_dir@),
        !under(cfg.source_dir@, cfg.trash_dir@),
        name_error(encode_utf8(rel)) is None,
        names_an_entry(encode_utf8(rel)),
        0 <= i < tree_images(
            source_rules(cfg),
            root_item(cfg.source_dir@),
            children,
        ).len(),
    ensures
        tree_images(source_rules(cfg), root_item(cfg.source_dir@), children)[i].abs != candidate(
            joined(base_of(cfg, dest), encode_utf8(rel)),
            n,
        ),
{
    let rules = source_rules(cfg);
    let root = root_item(cfg.source_dir@);
    let image = tree_images(rules, root, children)[i];
    tree_images_are_proper(rules, root, children, i);
    let path = choose|path: Seq<char>| #[trigger] is_proper(rules, root, image, path);
    moved_file_stays_in_its_directory(base_of(cfg, dest), rel, n);
    assert(rules.prune[0] == cfg.keep_dir@);
    assert(rules.prune[1] == cfg.trash_dir@);
}

/// Two lists without repetition that hold the same texts are equally long.
proof fn same_texts_same_length(a: Seq<Seq<char>>, b: Seq<Seq<char>>)
    requires
        a.no_duplicates(),
        b.no_duplicates(),
        same_texts(a, b),
    ensures
        a.len() == b.len(),
{
    a.unique_seq_to_set();
    b.unique_seq_to_set();
    assert(a.to_set() =~= b.to_set());
}

/// Whether the tree at the source has no image at the path of keep or trash, both
/// of which are directories.
pub open spec fn no_image_at_a_destination(cfg: Config, children: Children) -> bool {
    let images = tree_images(source_rules(cfg), root_item(cfg.source_dir@), children);
    forall|i: int|
        0 <= i < images.len() ==> components(#[trigger] images[i].abs) != components(cfg.keep_dir@)
            && components(images[i].abs) != components(cfg.trash_dir@)
}

/// Asking for the next image again and again, while the tree is at rest, shows
/// every image of the source exactly once: in strictly ascending order, or the
/// same in reverse. If the source is not below keep or trash, every name that is
/// shown is accepted and resolves to the image.
pub proof fn run_shows_the_tree(cfg: Config, children: Children) -> (all: Seq<Seq<char>>)
    requires
        names_are_plain(children),
        names_differ(children),
        cfg.source_dir@.len() > 0,
    ensures
        ({
            let root = root_item(cfg.source_dir@);
            let images = rels(tree_images(source_rules(cfg), root, children));
            &&& walked(
                source_rules(cfg),
                root,
                children,
                Seq::empty(),
                Seq::empty(),
                Seq::empty(),
                entry_count(children) + 1,
            ) matches Some(seen) && rels(seen) == images
            &&& ascending(all)
            &&& all.no_duplicates()
            &&& same_texts(images, all)
            &&& all.len() == images.len()
            &&& is_run(Order::Asc, images, all)
            &&& is_run(Order::Desc, images, all.reverse())
            &&& forall|run: Seq<Seq<char>>| #[trigger]
                is_run(Order::Asc, images, run) ==> run == all
            &&& forall|run: Seq<Seq<char>>| #[trigger]
                is_run(Order::Desc, images, run) ==> run == all.reverse()
        }),
        !under(cfg.source_dir@, cfg.keep_dir@) && !under(cfg.source_dir@, cfg.trash_dir@)
            && no_image_at_a_destination(cfg, children) ==> forall|r: Seq<char>| #[trigger]
            all.contains(r) ==> source_verdict(
                cfg,
                encode_utf8(r),
                Some(joined(cfg.source_dir@, encode_utf8(r))),
            ) == Ok::<Seq<u8>, PathError>(joined(cfg.source_dir@, encode_utf8(r))),
{
    let items = tree_images(source_rules(cfg), root_item(cfg.source_dir@), children);
    let images = rels(items);
    let all = run_shows_every_image_once(images);
    walk_comes_to_the_tree(source_rules(cfg), root_item(cfg.source_dir@), children);
    tree_rels_are_distinct(source_rules(cfg), root_item(cfg.source_dir@), children);
    same_texts_same_length(images, all);
    if !under(cfg.source_dir@, cfg.keep_dir@) && !under(cfg.source_dir@, cfg.trash_dir@)
        && no_image_at_a_destination(cfg, children) {
        assert forall|r: Seq<char>| #[trigger] all.contains(r) implies source_verdict(
            cfg,
            encode_utf8(r),
            Some(joined(cfg.source_dir@, encode_utf8(r))),
        ) == Ok::<Seq<u8>, PathError>(joined(cfg.source_dir@, encode_utf8(r))) by {
            assert(images.contains(r));
            let i = choose|i: int| 0 <= i < images.len() && images[i] == r;
            assert(items[i].rel == r);
            assert(components(items[i].abs) != components(cfg.keep_dir@));
            shown_image_is_accepted(cfg, children, i);
        }
    }
    all
}

/// A key of a listing is that of one of the images.
pub(crate) proof fn key_is_of_an_image(
    sort: KeepSort,
    time: spec_fn(Seq<u8>) -> Option<u64>,
    images: Seq<ItemView>,
    key: Key,
) -> (at: int)
    requires
        image_keys(sort, time, images).contains(key),
    ensures
        0 <= at < images.len(),
        images[at].rel == key.1,
        match sort {
            KeepSort::Name => key.0 == 0,
            KeepSort::Mtime => time(images[at].abs) == Some(key.0),
        },
    decreases images.len(),
{
    let keys = image_keys(sort, time, images);
    let before = image_keys(sort, time, images.drop_last());
    let k = choose|k: int| 0 <= k < keys.len() && keys[k] == key;
    if k < before.len() {
        assert(before[k] == key);
        key_is_of_an_image(sort, time, images.drop_last(), key)
    } else {
        images.len() - 1
    }
}

/// Images with different relative paths have different keys.
pub(crate) proof fn keys_are_distinct(
    sort: KeepSort,
    time: spec_fn(Seq<u8>) -> Option<u64>,
    images: Seq<ItemView>,
)
    requires
        rels(images).no_duplicates(),
    ensures
        image_keys(sort, time, images).no_duplicates(),
    decreases images.len(),
{
    if images.len() > 0 {
        let rest = images.drop_last();
        let keys = image_keys(sort, time, images);
        let before = image_keys(sort, time, rest);
        assert forall|i: int, j: int|
            0 <= i < rels(rest).len() && 0 <= j < rels(rest).len() && i != j implies rels(rest)[i]
            != rels(rest)[j] by {
            assert(rels(images)[i] != rels(images)[j]);
        }
        keys_are_distinct(sort, time, rest);
        assert forall|i: int, j: int| 0 <= i < keys.len() && 0 <= j < keys.len() && i < j implies keys[i]
            != keys[j] by {
            assert(keys[i] == before[i]);
            if j < before.len() {
                assert(keys[j] == before[j]);
            } else {
                assert(before.contains(before[i]));
                let at = key_is_of_an_image(sort, time, rest, before[i]);
                assert(rels(images)[at] != rels(images)[images.len() - 1]);
            }
        }
    }
}

/// The entry that a listing shows for a key.
pub open spec fn entry_for(
    sort: KeepSort,
    time: spec_fn(Seq<u8>) -> Option<u64>,
    keep_dir: Seq<u8>,
    key: Key,
) -> (Seq<char>, u64) {
    match sort {
        KeepSort::Name => (key.1, stamp(time, keep_dir, key.1)),
        KeepSort::Mtime => (key.1, key.0),
    }
}

/// The cursor for the page after one that ends in `entry`: the relative path and,
/// unless the listing is sorted by name, the time.
pub open spec fn cursor_behind(sort: KeepSort, entry: (Seq<char>, u64)) -> Key {
    match sort {
        KeepSort::Name => (0, entry.0),
        KeepSort::Mtime => (entry.1, entry.0),
    }
}

/// Pages of the gallery that are asked for one after another, while the kept tree
/// is at rest, come to an end, and joined they are the whole listing: every kept
/// image that is listed comes once, equal times or not. Every page but the last
/// has `limit` entries, and the listing with the largest first is the reverse of
/// the other.
///
/// Each entry shows the time of its own file, and the cursor that is read off an
/// entry is the key that it is listed under.
pub proof fn pages_show_the_kept_tree(
    cfg: Config,
    children: Children,
    sort: KeepSort,
    time: spec_fn(Seq<u8>) -> Option<u64>,
    desc: bool,
    limit: nat,
) -> (pages: Seq<Seq<Key>>)
    requires
        names_are_plain(children),
        names_differ(children),
        cfg.keep_dir@.len() > 0,
        limit >= 1,
    ensures
        ({
            let images = tree_images(keep_rules(cfg), root_item(cfg.keep_dir@), children);
            let keys = image_keys(sort, time, images);
            &&& gathered(
                sort,
                time,
                keep_rules(cfg),
                seq![root_item(cfg.keep_dir@)],
                seq![children],
                Seq::empty(),
                entry_count(children) + 1,
            ) == Some(keys)
            &&& keys.no_duplicates()
            &&& sort == KeepSort::Name ==> keys == name_keys(images)
            &&& are_pages(desc, limit, keys, pages)
            &&& forall|all: Seq<Seq<Key>>| #[trigger]
                are_pages(desc, limit, keys, all) ==> all.flatten() == ordered(desc, keys)
                    && forall|i: int|
                    0 <= i < all.len() - 1 ==> (#[trigger] all[i]).len() == limit
            &&& forall|most: nat|
                most >= keys.len() ==> #[trigger] page(desc, None, most, keys) == ordered(
                    desc,
                    keys,
                )
            &&& ordered(true, keys) == ordered(false, keys).reverse()
            &&& forall|key: Key| #[trigger]
                keys.contains(key) ==> cursor_behind(
                    sort,
                    entry_for(sort, time, cfg.keep_dir@, key),
                ) == key && entry_for(sort, time, cfg.keep_dir@, key) == (
                    key.1,
                    stamp(time, cfg.keep_dir@, key.1),
                )
        }),
{
    let images = tree_images(keep_rules(cfg), root_item(cfg.keep_dir@), children);
    let keys = image_keys(sort, time, images);
    tree_rels_are_distinct(keep_rules(cfg), root_item(cfg.keep_dir@), children);
    listing_comes_to_the_tree(
        sort,
        time,
        keep_rules(cfg),
        root_item(cfg.keep_dir@),
        children,
    );
    keys_are_distinct(sort, time, images);
    name_keys_are_keys(time, images);
    desc_is_reverse_of_asc(keys);
    assert forall|most: nat| most >= keys.len() implies #[trigger] page(desc, None, most, keys)
        == ordered(desc, keys) by {
        first_page_starts_the_listing(desc, keys, most);
    }
    assert forall|key: Key| #[trigger] keys.contains(key) implies cursor_behind(
        sort,
        entry_for(sort, time, cfg.keep_dir@, key),
    ) == key && entry_for(sort, time, cfg.keep_dir@, key) == (
        key.1,
        stamp(time, cfg.keep_dir@, key.1),
    ) by {
        let at = key_is_of_an_image(sort, time, images, key);
        kept_image_is_accepted(cfg, children, at);
    }
    pages_make_the_listing(desc, limit, keys)
}

/// A sample of the gallery, drawn while the kept tree is at rest, has as many
/// entries as were asked for, or all if there are fewer; no entry comes twice, and
/// each is an image of the tree and shows the time of its file, or 0 if that is
/// not known. None is drawn if none is asked for. The sample depends on nothing
/// but the tree as it is read, the size and the seed.
pub proof fn sample_shows_the_kept_tree(
    cfg: Config,
    children: Children,
    time: spec_fn(Seq<u8>) -> Option<u64>,
    n: nat,
    seed: u64,
)
    requires
        names_are_plain(children),
        names_differ(children),
        cfg.keep_dir@.len() > 0,
    ensures
        ({
            let root = root_item(cfg.keep_dir@);
            let images = tree_images(keep_rules(cfg), root, children);
            let all = rels(images);
            let kept = sampled(all, n, seed).kept;
            let entries = described(time, cfg.keep_dir@, kept);
            &&& walked(
                keep_rules(cfg),
                root,
                children,
                Seq::empty(),
                Seq::empty(),
                Seq::empty(),
                entry_count(children) + 1,
            ) == Some(images)
            &&& asked(time, cfg.keep_dir@, kept, Seq::empty(), kept.len()) == Some(entries)
            &&& entries.len() == (if n < all.len() {
                n
            } else {
                all.len()
            })
            &&& forall|i: int, j: int|
                0 <= i < j < entries.len() ==> (#[trigger] entries[i]).0 != (
                #[trigger] entries[j]).0
            &&& forall|i: int|
                0 <= i < entries.len() ==> exists|k: int|
                    0 <= k < images.len() && (#[trigger] images[k]).rel == (
                    #[trigger] entries[i]).0 && entries[i].1 == (match time(images[k].abs) {
                        Some(t) => t,
                        None => 0,
                    })
            &&& n == 0 ==> entries.len() == 0
            &&& n >= all.len() ==> kept == all
        }),
{
    let root = root_item(cfg.keep_dir@);
    let images = tree_images(keep_rules(cfg), root, children);
    let all = rels(images);
    let kept = sampled(all, n, seed).kept;
    let entries = described(time, cfg.keep_dir@, kept);
    walk_comes_to_the_tree(keep_rules(cfg), root, children);
    tree_rels_are_distinct(keep_rules(cfg), root, children);
    entries_show_their_times(time, cfg.keep_dir@, kept);
    sample_has_its_size(all, n, seed);
    sample_is_a_subset(all, n, seed);
    if n >= all.len() {
        large_sample_is_everything(all, n, seed);
    }
    assert forall|i: int, j: int| 0 <= i < j < entries.len() implies (#[trigger] entries[i]).0 != (
    #[trigger] entries[j]).0 by {
        assert(entries[i].0 == kept[i] && entries[j].0 == kept[j]);
    }
    assert forall|i: int| 0 <= i < entries.len() implies exists|k: int|
        0 <= k < images.len() && (#[trigger] images[k]).rel == (#[trigger] entries[i]).0
            && entries[i].1 == (match time(images[k].abs) {
            Some(t) => t,
            None => 0,
        }) by {
        assert(all.contains(kept[i]));
        let k = choose|k: int| 0 <= k < all.len() && all[k] == kept[i];
        assert(images[k].rel == all[k]);
        kept_image_is_accepted(cfg, children, k);
    }
}

} // verus!
