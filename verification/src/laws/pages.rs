//! Laws of listing and sampling what was kept.

use crate::config::Config;
use crate::gallery::{
    distinct_keys_are_strict, filter_counts, goes_on, is_describing, is_listed, keys_of,
    list_keep_page, listing_is_total, listing_order, mtime_ms, name_keys, ordered, ordering, page,
    page_is_first, stamp, taken_in, time_of, Describe, DescribeStep, KeepItem, KeepSort, Key,
    ListDir, ListFile, ListStep, PageHeap, PageQuery,
};
use crate::laws::walks::{
    below_pending, descended, every_image_is_come_to, has_image, image_at, left_over,
    only_images_are_come_to, read_entries, reads, rels_append, slashed,
};
use crate::order::text_lt;
use crate::sample::{
    large_sample_is_everything, sample_has_its_size, sample_is_a_subset, sample_keep, sampled,
    SampleDir, SampleStep, SplitMix64,
};
use crate::tree::{
    entries_of, entry_for, forest_fits, forest_of, image_keys, image_keys_append,
    images_ahead_in_range, images_at_front, images_left, images_left_append, kept_image_is_accepted,
    key_is_of_an_image, keys_are_distinct, name_keys_are_keys, names_are_plain, names_differ,
    tree_images, tree_images_are_left, tree_rels_are_distinct, Children,
};
use crate::unix_path::joined;
use crate::walk::{
    additions, entry_views, images_ahead, keep_rules, pending_after, rels, root_item, DirEntry,
    EntryView, ItemView, Listing, Rules,
};
use vstd::prelude::*;
use vstd::utf8::encode_utf8;

verus! {

/// A modification time is told in milliseconds, in its lower 64 bits, and not told
/// if it is not known.
pub proof fn times_are_told_in_milliseconds(millis: Option<u128>, r: Option<u64>)
    requires
        call_ensures(mtime_ms, (millis,), r),
    ensures
        r is Some <==> millis is Some,
        millis matches Some(m) ==> (r matches Some(t) && t as int == m as int
            % 0x1_0000_0000_0000_0000),
        r == time_of(millis),
{
}

/// Whether one entry comes before another: the smaller time first, or the larger
/// if `desc`, and of equal times the smaller relative path by its bytes, or the
/// larger.
pub open spec fn comes_first(desc: bool, a: Key, b: Key) -> bool {
    if desc {
        a.0 > b.0 || (a.0 == b.0 && text_lt(b.1, a.1))
    } else {
        a.0 < b.0 || (a.0 == b.0 && text_lt(a.1, b.1))
    }
}

/// A page that an entry is put on has that entry and those it had, in order; the
/// entry that goes is the last, and what comes out is what is on it.
pub proof fn page_stays_in_order(
    heap: &mut PageHeap,
    key: (u64, String),
    worst: Option<(u64, &str)>,
    i: int,
    j: int,
)
    requires
        call_ensures(PageHeap::worst, (&*heap,), worst),
        call_ensures(PageHeap::push, (heap, key), ()),
    ensures
        final(heap).desc() == old(heap).desc(),
        final(heap)@.to_multiset() == old(heap)@.to_multiset().insert((key.0, key.1@)),
        0 <= i < j < final(heap)@.len() ==> !comes_first(
            final(heap).desc(),
            final(heap)@[j],
            final(heap)@[i],
        ),
        worst is None <==> old(heap)@.len() == 0,
        worst matches Some(w) ==> (w.0, w.1@) == old(heap)@.last(),
{
    let desc = old(heap).desc();
    let all = old(heap)@.push((key.0, key.1@));
    ordering(desc, all);
    old(heap)@.to_multiset_ensures();
    if 0 <= i < j < final(heap)@.len() {
        assert(listing_order(desc)(final(heap)@[i], final(heap)@[j]));
    }
}

/// A new page is empty, and dropping an entry drops the last.
pub proof fn last_entry_is_dropped(
    desc: bool,
    new: PageHeap,
    heap: &mut PageHeap,
    whole: PageHeap,
    out: Vec<(u64, String)>,
    n: usize,
)
    requires
        call_ensures(PageHeap::new, (desc,), new),
        call_ensures(PageHeap::pop, (heap,), ()),
        call_ensures(PageHeap::into_sorted, (whole,), out),
        call_ensures(PageHeap::len, (&whole,), n),
    ensures
        new.desc() == desc,
        new@.len() == 0,
        old(heap)@.len() > 0 ==> final(heap)@ == old(heap)@.drop_last(),
        old(heap)@.len() == 0 ==> final(heap)@.len() == 0,
        final(heap).desc() == old(heap).desc(),
        n == whole@.len(),
        out@.len() == whole@.len(),
        forall|k: int|
            0 <= k < out@.len() ==> ((#[trigger] out@[k]).0, out@[k].1@) == whole@[k],
{
    assert(keys_of(out@) == whole@);
    assert(keys_of(out@).len() == out@.len());
    assert forall|k: int| 0 <= k < out@.len() implies ((#[trigger] out@[k]).0, out@[k].1@)
        == whole@[k] by {
        assert(keys_of(out@)[k] == whole@[k]);
    }
}

/// Whether `p` are the first entries behind the cursor: no more than `limit`, each
/// of them a key behind the cursor, in strict order, and none left out that comes
/// before one of them, or that there is room for.
pub open spec fn are_first_entries(
    desc: bool,
    after: Option<Key>,
    limit: nat,
    keys: Seq<Key>,
    p: Seq<Key>,
) -> bool {
    &&& p.len() <= limit
    &&& forall|i: int|
        0 <= i < p.len() ==> keys.contains(#[trigger] p[i]) && (after matches Some(a)
            ==> comes_first(desc, a, p[i]))
    &&& forall|i: int, j: int|
        0 <= i < j < p.len() ==> comes_first(desc, #[trigger] p[i], #[trigger] p[j])
    &&& forall|key: Key| #[trigger]
        keys.contains(key) && (after matches Some(a) ==> comes_first(desc, a, key)) && !p.contains(
            key,
        ) ==> p.len() == limit && forall|i: int|
            0 <= i < p.len() ==> comes_first(desc, #[trigger] p[i], key)
}

/// A page holds the first entries behind the cursor.
pub proof fn page_holds_the_first_entries(
    desc: bool,
    after: Option<Key>,
    limit: nat,
    keys: Seq<Key>,
)
    requires
        keys.no_duplicates(),
    ensures
        are_first_entries(desc, after, limit, keys, page(desc, after, limit, keys)),
{
    let pred = |k: Key| is_listed(desc, after, k);
    let listed = keys.filter(pred);
    let all = ordered(desc, listed);
    let p = page(desc, after, limit, keys);
    ordering(desc, listed);
    assert(listed.no_duplicates()) by {
        keys.lemma_multiset_has_no_duplicates();
        keys.to_multiset_ensures();
        listed.to_multiset_ensures();
        assert forall|x: Key| #[trigger] listed.to_multiset().contains(x) implies listed.to_multiset()
            .count(x) == 1 by {
            filter_counts(keys, pred, x);
            assert(keys.to_multiset().contains(x));
        }
        listed.lemma_multiset_has_no_duplicates_conv();
    }
    distinct_keys_are_strict(desc, listed);
    assert forall|i: int, j: int| 0 <= i < j < p.len() implies comes_first(
        desc,
        #[trigger] p[i],
        #[trigger] p[j],
    ) by {
        assert(p[i] == all[i] && p[j] == all[j]);
    }
    assert forall|i: int| 0 <= i < p.len() implies keys.contains(#[trigger] p[i]) && (
    after matches Some(a) ==> comes_first(desc, a, p[i])) by {
        assert(p[i] == all[i]);
        assert(all.contains(all[i]));
        listed.to_multiset_ensures();
        all.to_multiset_ensures();
        keys.to_multiset_ensures();
        filter_counts(keys, pred, all[i]);
        assert(all.to_multiset().count(all[i]) > 0);
        assert(keys.to_multiset().contains(all[i]));
        assert(is_listed(desc, after, all[i]));
    }
    assert forall|key: Key| #[trigger]
        keys.contains(key) && (after matches Some(a) ==> comes_first(desc, a, key)) && !p.contains(
            key,
        ) implies p.len() == limit && forall|i: int|
        0 <= i < p.len() ==> comes_first(desc, #[trigger] p[i], key) by {
        assert(is_listed(desc, after, key));
        page_is_first(desc, after, limit, keys, key);
        assert forall|i: int| 0 <= i < p.len() implies comes_first(
            desc,
            #[trigger] p[i],
            key,
        ) by {
            listing_is_total(desc, p[i], key);
            if p[i] == key {
                assert(p.contains(key));
            }
        }
    }
    if limit < all.len() {
        assert(p.len() == limit);
    }
}

/// A key is in a listing if and only if it is that of an image: its relative path
/// with its time, or with zero in a listing by name.
pub proof fn keys_are_those_of_the_images(
    sort: KeepSort,
    time: spec_fn(Seq<u8>) -> Option<u64>,
    images: Seq<ItemView>,
    key: Key,
)
    ensures
        image_keys(sort, time, images).contains(key) <==> exists|i: int|
            0 <= i < images.len() && (#[trigger] images[i]).rel == key.1 && (match sort {
                KeepSort::Name => key.0 == 0,
                KeepSort::Mtime => time(images[i].abs) == Some(key.0),
            }),
    decreases images.len(),
{
    let keys = image_keys(sort, time, images);
    if keys.contains(key) {
        let at = key_is_of_an_image(sort, time, images, key);
        assert(images[at].rel == key.1);
    }
    if exists|i: int|
        0 <= i < images.len() && (#[trigger] images[i]).rel == key.1 && (match sort {
            KeepSort::Name => key.0 == 0,
            KeepSort::Mtime => time(images[i].abs) == Some(key.0),
        }) {
        let i = choose|i: int|
            0 <= i < images.len() && (#[trigger] images[i]).rel == key.1 && (match sort {
                KeepSort::Name => key.0 == 0,
                KeepSort::Mtime => time(images[i].abs) == Some(key.0),
            });
        let rest = images.drop_last();
        let before = image_keys(sort, time, rest);
        if i < rest.len() {
            assert(rest[i] == images[i]);
            keys_are_those_of_the_images(sort, time, rest, key);
            let k = choose|k: int| 0 <= k < before.len() && before[k] == key;
            assert(keys[k] == key);
        } else {
            assert(keys[before.len() as int] == key);
        }
    }
}

/// Whether entries show these relative paths and times.
pub open spec fn entries_show(v: Seq<KeepItem>, items: Seq<(Seq<char>, u64)>) -> bool {
    v.len() == items.len() && forall|i: int|
        0 <= i < v.len() ==> (#[trigger] v[i]).rel@ == items[i].0 && v[i].mtime_ms == items[i].1
}

/// Whether chosen entries end up showing `items` after at most `steps` questions,
/// if the time of each file that is asked for is what `time` says.
pub open spec fn describing_ends(
    step: DescribeStep,
    time: spec_fn(Seq<u8>) -> Option<u128>,
    items: Seq<(Seq<char>, u64)>,
    steps: nat,
) -> bool
    decreases steps,
{
    match step {
        DescribeStep::Done(v) => entries_show(v@, items),
        DescribeStep::Stat(d) => steps > 0 && exists|path: &Vec<u8>, next: DescribeStep|
            #![trigger call_ensures(Describe::file, (&d,), path), call_ensures(
                Describe::stamped,
                (d, time(path@)),
                next,
            )]
            call_ensures(Describe::file, (&d,), path) && call_ensures(
                Describe::stamped,
                (d, time(path@)),
                next,
            ) && describing_ends(next, time, items, (steps - 1) as nat),
    }
}

/// The times that are told, of what `time` says in milliseconds.
pub open spec fn told(time: spec_fn(Seq<u8>) -> Option<u128>) -> spec_fn(Seq<u8>) -> Option<u64> {
    |p: Seq<u8>| time_of(time(p))
}

proof fn shown_items(v: Seq<KeepItem>, items: Seq<(Seq<char>, u64)>)
    requires
        entries_show(v, items),
    ensures
        crate::gallery::shown(v) == items,
{
    assert forall|i: int| 0 <= i < v.len() implies crate::gallery::shown(v)[i] == items[i] by {
        assert(v[i].rel@ == items[i].0);
    }
    assert(crate::gallery::shown(v) =~= items);
}

proof fn describing_shows_times(
    d: Describe,
    time: spec_fn(Seq<u8>) -> Option<u128>,
    items: Seq<(Seq<char>, u64)>,
    steps: nat,
)
    requires
        describing_ends(DescribeStep::Stat(d), time, items, steps),
    ensures
        items.len() == d.rels().len(),
        d.times().len() < d.rels().len(),
        forall|i: int|
            0 <= i < items.len() ==> (#[trigger] items[i]).0 == d.rels()[i] && items[i].1 == (if i
                < d.times().len() {
                d.times()[i]
            } else {
                stamp(told(time), d.keep_dir(), d.rels()[i])
            }),
    decreases steps,
{
    let (path, next) = choose|path: &Vec<u8>, next: DescribeStep|
        #![trigger call_ensures(Describe::file, (&d,), path), call_ensures(
            Describe::stamped,
            (d, time(path@)),
            next,
        )]
        call_ensures(Describe::file, (&d,), path) && call_ensures(
            Describe::stamped,
            (d, time(path@)),
            next,
        ) && describing_ends(next, time, items, (steps - 1) as nat);
    let n = d.times().len() as int;
    assert(path@ == joined(d.keep_dir(), encode_utf8(d.rels()[n])));
    assert(told(time)(path@) == time_of(time(path@)));
    match next {
        DescribeStep::Stat(e) => {
            describing_shows_times(e, time, items, (steps - 1) as nat);
        },
        DescribeStep::Done(v) => {
            shown_items(v@, items);
        },
    }
}

/// How many items are pending behind what a listing asks for.
pub open spec fn pending_behind(step: ListStep<'_>) -> int {
    match step {
        ListStep::ReadDir(n) => n.pending().len() as int,
        ListStep::Stat(n) => n.pending().len() as int,
        _ => 0,
    }
}

/// Whether a listing ends with `items` after at most `steps` questions, if each
/// directory that it asks for is answered from the tree, and each file's time is
/// what `time` says.
pub open spec fn listing_ends(
    step: ListStep<'_>,
    children: Children,
    forest: Seq<Children>,
    time: spec_fn(Seq<u8>) -> Option<u128>,
    items: Seq<(Seq<char>, u64)>,
    steps: nat,
) -> bool
    decreases steps,
{
    match step {
        ListStep::Failed => false,
        ListStep::Describe(d) => describing_ends(d, time, items, steps),
        ListStep::ReadDir(s) => steps > 0 && exists|listing: Listing, next: ListStep<'_>|
            #![trigger call_ensures(ListDir::listed, (s, listing), next)]
            reads(listing, children) && call_ensures(ListDir::listed, (s, listing), next) && {
                let f = below_pending(s.rules(), s.reading(), children, forest);
                let at = f.len() - 1 - pending_behind(next);
                listing_ends(next, f[at], f.skip(at + 1), time, items, (steps - 1) as nat)
            },
        ListStep::Stat(s) => steps > 0 && exists|path: &Vec<u8>, next: ListStep<'_>|
            #![trigger call_ensures(ListFile::file, (&s,), path), call_ensures(
                ListFile::stamped,
                (s, time(path@)),
                next,
            )]
            call_ensures(ListFile::file, (&s,), path) && call_ensures(
                ListFile::stamped,
                (s, time(path@)),
                next,
            ) && {
                let at = forest.len() - 1 - pending_behind(next);
                listing_ends(next, forest[at], forest.skip(at + 1), time, items, (steps - 1) as nat)
            },
    }
}

/// What a listing that goes on from `pending` comes to.
proof fn listing_goes_on(
    step: ListStep<'_>,
    cfg: Config,
    rules: Rules,
    query: PageQuery,
    pending: Seq<ItemView>,
    forest: Seq<Children>,
    seen: Seq<Key>,
    time: spec_fn(Seq<u8>) -> Option<u128>,
    items: Seq<(Seq<char>, u64)>,
    steps: nat,
)
    requires
        pending.len() == forest.len(),
        goes_on(step, cfg, rules, query, pending, seen),
        ({
            let at = forest.len() - 1 - pending_behind(step);
            listing_ends(step, forest[at], forest.skip(at + 1), time, items, steps)
        }),
    ensures
        ({
            let keys = seen + image_keys(
                query.sort,
                told(time),
                images_left(rules, pending, forest),
            );
            let p = page(query.desc, query.after, query.limit, keys);
            &&& items.len() == p.len()
            &&& forall|i: int|
                0 <= i < p.len() ==> #[trigger] items[i] == entry_for(
                    query.sort,
                    told(time),
                    cfg.keep_dir@,
                    p[i],
                )
        }),
    decreases steps,
{
    let sort = query.sort;
    let tm = told(time);
    let k = taken_in(sort, pending) as int;
    let front = pending.take(k);
    let now_seen = seen + name_keys(front);
    let all = images_left(rules, pending, forest);
    images_ahead_in_range(pending);
    images_at_front(rules, pending, forest, k);
    let p = pending.skip(k);
    let f = forest.skip(k);
    let left = images_left(rules, p, f);
    image_keys_append(sort, tm, front, left);
    if sort == KeepSort::Name {
        name_keys_are_keys(tm, front);
    } else {
        assert(front =~= Seq::<ItemView>::empty());
        assert(name_keys(front) =~= image_keys(sort, tm, front));
    }
    let goal = seen + image_keys(sort, tm, all);
    assert(goal =~= now_seen + image_keys(sort, tm, left));
    match step {
        ListStep::Describe(d) => {
            assert(left =~= Seq::<ItemView>::empty());
            assert(goal =~= now_seen);
            let shown = page(query.desc, query.after, query.limit, now_seen);
            match d {
                DescribeStep::Stat(x) => {
                    describing_shows_times(x, time, items, steps);
                },
                DescribeStep::Done(v) => {
                    shown_items(v@, items);
                },
            }
        },
        ListStep::ReadDir(s) => {
            let item = pending[k];
            let pr = pending.skip(k + 1);
            let fr = forest.skip(k + 1);
            assert(p.drop_first() =~= pr && f.drop_first() =~= fr);
            assert(p[0] == item && f[0] == forest[k]);
            let children = forest[k];
            let (listing, next) = choose|listing: Listing, next: ListStep<'_>|
                #![trigger call_ensures(ListDir::listed, (s, listing), next)]
                reads(listing, children) && call_ensures(ListDir::listed, (s, listing), next) && {
                    let f = below_pending(s.rules(), s.reading(), children, fr);
                    let at = f.len() - 1 - pending_behind(next);
                    listing_ends(next, f[at], f.skip(at + 1), time, items, (steps - 1) as nat)
                };
            read_entries(rules, item, pr, listing, children);
            let a = additions(rules, item, entries_of(children));
            let af = forest_of(rules, item, children);
            forest_fits(rules, item, children);
            tree_images_are_left(rules, item, children);
            images_left_append(rules, a, af, pr, fr);
            assert(left =~= images_left(rules, a + pr, af + fr));
            listing_goes_on(
                next,
                cfg,
                rules,
                query,
                a + pr,
                af + fr,
                now_seen,
                time,
                items,
                (steps - 1) as nat,
            );
        },
        ListStep::Stat(s) => {
            let item = pending[k];
            let pr = pending.skip(k + 1);
            let fr = forest.skip(k + 1);
            assert(p.drop_first() =~= pr && f.drop_first() =~= fr);
            assert(p[0] == item && f[0] == forest[k]);
            let (path, next) = choose|path: &Vec<u8>, next: ListStep<'_>|
                #![trigger call_ensures(ListFile::file, (&s,), path), call_ensures(
                    ListFile::stamped,
                    (s, time(path@)),
                    next,
                )]
                call_ensures(ListFile::file, (&s,), path) && call_ensures(
                    ListFile::stamped,
                    (s, time(path@)),
                    next,
                ) && {
                    let at = fr.len() - 1 - pending_behind(next);
                    listing_ends(next, fr[at], fr.skip(at + 1), time, items, (steps - 1) as nat)
                };
            assert(path@ == item.abs);
            assert(tm(item.abs) == time_of(time(item.abs)));
            let more = match time_of(time(item.abs)) {
                Some(t) => now_seen.push((t, item.rel)),
                None => now_seen,
            };
            let rest = images_left(rules, pr, fr);
            image_keys_append(sort, tm, seq![item], rest);
            assert(left =~= seq![item] + rest);
            reveal_with_fuel(image_keys, 2);
            assert(seq![item].drop_last() =~= Seq::<ItemView>::empty());
            assert(sort == KeepSort::Mtime) by {
                if sort == KeepSort::Name {
                    assert(pending[k].dir);
                }
            }
            assert(more + image_keys(sort, tm, rest) =~= goal);
            listing_goes_on(
                next,
                cfg,
                rules,
                query,
                pr,
                fr,
                more,
                time,
                items,
                (steps - 1) as nat,
            );
        },
        ListStep::Failed => {},
    }
}

/// The key that a listing goes on behind.
pub open spec fn behind(after: Option<(u64, &str)>) -> Option<Key> {
    match after {
        Some(a) => Some((a.0, a.1@)),
        None => None,
    }
}

/// Whether entries show the relative paths of these keys, each with the time of
/// its own file.
pub open spec fn entries_are_of(
    items: Seq<(Seq<char>, u64)>,
    keys: Seq<Key>,
    time: spec_fn(Seq<u8>) -> Option<u64>,
    keep_dir: Seq<u8>,
) -> bool {
    items.len() == keys.len() && forall|i: int|
        0 <= i < items.len() ==> (#[trigger] items[i]).0 == keys[i].1 && items[i].1 == stamp(
            time,
            keep_dir,
            keys[i].1,
        )
}

/// A page of the gallery, listed while the kept tree is at rest, shows the first
/// entries behind the cursor, and each shows the time of its own file.
pub proof fn listing_shows_the_first_entries<'a>(
    cfg: &'a Config,
    sort: KeepSort,
    desc: bool,
    after: Option<(u64, &str)>,
    limit: usize,
    start: ListStep<'a>,
    children: Children,
    time: spec_fn(Seq<u8>) -> Option<u128>,
    items: Seq<(Seq<char>, u64)>,
    steps: nat,
)
    requires
        call_ensures(list_keep_page, (cfg, sort, desc, after, limit), start),
        listing_ends(start, children, Seq::empty(), time, items, steps),
        names_are_plain(children),
        names_differ(children),
        cfg.keep_dir@.len() > 0,
    ensures
        ({
            let images = tree_images(keep_rules(*cfg), root_item(cfg.keep_dir@), children);
            let keys = image_keys(sort, told(time), images);
            exists|p: Seq<Key>| #[trigger]
                are_first_entries(desc, behind(after), limit as nat, keys, p) && entries_are_of(
                    items,
                    p,
                    told(time),
                    cfg.keep_dir@,
                )
        }),
{
    let rules = keep_rules(*cfg);
    let root = root_item(cfg.keep_dir@);
    let images = tree_images(rules, root, children);
    let tm = told(time);
    let keys = image_keys(sort, tm, images);
    let s = start->ReadDir_0;
    let none = Seq::<Children>::empty();
    let (listing, next) = choose|listing: Listing, next: ListStep<'_>|
        #![trigger call_ensures(ListDir::listed, (s, listing), next)]
        reads(listing, children) && call_ensures(ListDir::listed, (s, listing), next) && {
            let f = below_pending(s.rules(), s.reading(), children, none);
            let at = f.len() - 1 - pending_behind(next);
            listing_ends(next, f[at], f.skip(at + 1), time, items, (steps - 1) as nat)
        };
    read_entries(rules, root, Seq::empty(), listing, children);
    let a = additions(rules, root, entries_of(children));
    let af = forest_of(rules, root, children);
    forest_fits(rules, root, children);
    tree_images_are_left(rules, root, children);
    assert(a + Seq::<ItemView>::empty() =~= a);
    assert(af + none =~= af);
    listing_goes_on(
        next,
        *cfg,
        rules,
        s.query(),
        a,
        af,
        Seq::empty(),
        time,
        items,
        (steps - 1) as nat,
    );
    assert(Seq::<Key>::empty() + keys =~= keys);
    tree_rels_are_distinct(rules, root, children);
    keys_are_distinct(sort, tm, images);
    page_holds_the_first_entries(desc, s.query().after, limit as nat, keys);
    let p = page(desc, s.query().after, limit as nat, keys);
    assert forall|i: int| 0 <= i < p.len() implies (#[trigger] items[i]).0 == p[i].1 && items[i].1
        == stamp(tm, cfg.keep_dir@, p[i].1) by {
        assert(keys.contains(p[i]));
        let at = key_is_of_an_image(sort, tm, images, p[i]);
        kept_image_is_accepted(*cfg, children, at);
        assert(items[i] == entry_for(sort, tm, cfg.keep_dir@, p[i]));
    }
    assert(behind(after) == s.query().after);
    assert(entries_are_of(items, p, tm, cfg.keep_dir@));
    assert(are_first_entries(desc, behind(after), limit as nat, keys, p));
}

/// A kept image is in the listing by name under its relative path, and in the
/// listing by time if its time is known, however deep it lies; nothing else is.
pub proof fn listed_keys_are_those_of_kept_images(
    cfg: Config,
    sort: KeepSort,
    time: spec_fn(Seq<u8>) -> Option<u64>,
    children: Children,
    key: Key,
)
    requires
        names_are_plain(children),
    ensures
        image_keys(
            sort,
            time,
            tree_images(keep_rules(cfg), root_item(cfg.keep_dir@), children),
        ).contains(key) <==> exists|names: Seq<Seq<char>>|
            #[trigger] has_image(keep_rules(cfg), cfg.keep_dir@, children, names) && key.1
                == slashed(names) && (match sort {
                KeepSort::Name => key.0 == 0,
                KeepSort::Mtime => time(descended(cfg.keep_dir@, names)) == Some(key.0),
            }),
{
    let rules = keep_rules(cfg);
    let root = root_item(cfg.keep_dir@);
    let images = tree_images(rules, root, children);
    let keys = image_keys(sort, time, images);
    keys_are_those_of_the_images(sort, time, images, key);
    if keys.contains(key) {
        let i = choose|i: int|
            0 <= i < images.len() && (#[trigger] images[i]).rel == key.1 && (match sort {
                KeepSort::Name => key.0 == 0,
                KeepSort::Mtime => time(images[i].abs) == Some(key.0),
            });
        assert(images.contains(images[i]));
        let names = only_images_are_come_to(rules, root, children, images[i]);
        assert(has_image(rules, cfg.keep_dir@, children, names));
    }
    if exists|names: Seq<Seq<char>>|
        #[trigger] has_image(rules, cfg.keep_dir@, children, names) && key.1 == slashed(names) && (
        match sort {
            KeepSort::Name => key.0 == 0,
            KeepSort::Mtime => time(descended(cfg.keep_dir@, names)) == Some(key.0),
        }) {
        let names = choose|names: Seq<Seq<char>>|
            #[trigger] has_image(rules, cfg.keep_dir@, children, names) && key.1 == slashed(names)
                && (match sort {
                KeepSort::Name => key.0 == 0,
                KeepSort::Mtime => time(descended(cfg.keep_dir@, names)) == Some(key.0),
            });
        every_image_is_come_to(rules, root, children, names);
        let i = choose|i: int| 0 <= i < images.len() && images[i] == image_at(root, names);
        assert(images[i].rel == key.1);
    }
}

/// Whether a sample ends with `items` after at most `steps` questions, if each
/// directory that it asks for is answered from the tree, and each file's time is
/// what `time` says.
pub open spec fn sampling_ends(
    step: SampleStep<'_>,
    children: Children,
    forest: Seq<Children>,
    time: spec_fn(Seq<u8>) -> Option<u128>,
    items: Seq<(Seq<char>, u64)>,
    steps: nat,
) -> bool
    decreases steps,
{
    match step {
        SampleStep::Failed => false,
        SampleStep::Describe(d) => describing_ends(d, time, items, steps),
        SampleStep::ReadDir(s) => steps > 0 && exists|listing: Listing, next: SampleStep<'_>|
            #![trigger call_ensures(SampleDir::listed, (s, listing), next)]
            reads(listing, children) && call_requires(SampleDir::listed, (s, listing))
                && call_ensures(SampleDir::listed, (s, listing), next) && {
                let f = below_pending(s.rules(), s.reading(), children, forest);
                let at = f.len() - 1 - (match next {
                    SampleStep::ReadDir(n) => n.pending().len() as int,
                    _ => 0,
                });
                sampling_ends(next, f[at], f.skip(at + 1), time, items, (steps - 1) as nat)
            },
    }
}

proof fn sampling_comes_to_all(
    s: SampleDir<'_>,
    children: Children,
    forest: Seq<Children>,
    time: spec_fn(Seq<u8>) -> Option<u128>,
    items: Seq<(Seq<char>, u64)>,
    steps: nat,
)
    requires
        s.pending().len() == forest.len(),
        sampling_ends(SampleStep::ReadDir(s), children, forest, time, items, steps),
    ensures
        ({
            let all = s.seen() + rels(
                tree_images(s.rules(), s.reading(), children) + images_left(
                    s.rules(),
                    s.pending(),
                    forest,
                ),
            );
            let kept = sampled(all, s.size(), s.seed()).kept;
            &&& items.len() == kept.len()
            &&& forall|i: int|
                0 <= i < kept.len() ==> (#[trigger] items[i]).0 == kept[i] && items[i].1 == stamp(
                    told(time),
                    s.cfg().keep_dir@,
                    kept[i],
                )
        }),
    decreases steps,
{
    let rules = s.rules();
    let (listing, next) = choose|listing: Listing, next: SampleStep<'_>|
        #![trigger call_ensures(SampleDir::listed, (s, listing), next)]
        reads(listing, children) && call_requires(SampleDir::listed, (s, listing))
            && call_ensures(SampleDir::listed, (s, listing), next) && {
            let f = below_pending(s.rules(), s.reading(), children, forest);
            let at = f.len() - 1 - (match next {
                SampleStep::ReadDir(n) => n.pending().len() as int,
                _ => 0,
            });
            sampling_ends(next, f[at], f.skip(at + 1), time, items, (steps - 1) as nat)
        };
    read_entries(rules, s.reading(), s.pending(), listing, children);
    let k = left_over(rules, s.reading(), children, s.pending(), forest);
    let p = additions(rules, s.reading(), entries_of(children)) + s.pending();
    let f = below_pending(rules, s.reading(), children, forest);
    let all = tree_images(rules, s.reading(), children) + images_left(rules, s.pending(), forest);
    match next {
        SampleStep::ReadDir(n) => {
            sampling_comes_to_all(n, f[k], f.skip(k + 1), time, items, (steps - 1) as nat);
            let tail = tree_images(rules, p[k], f[k]) + images_left(
                rules,
                p.skip(k + 1),
                f.skip(k + 1),
            );
            assert(all =~= p.take(k) + tail);
            rels_append(p.take(k), tail);
            assert(s.seen() + rels(all) =~= n.seen() + rels(tail));
        },
        SampleStep::Describe(d) => {
            match d {
                DescribeStep::Stat(x) => {
                    describing_shows_times(x, time, items, (steps - 1) as nat);
                },
                DescribeStep::Done(v) => {
                    shown_items(v@, items);
                },
            }
        },
        SampleStep::Failed => {},
    }
}

/// A sample of the gallery, drawn while the kept tree is at rest, has `n` entries,
/// or all if there are fewer; no name comes twice, each is that of a kept image,
/// and each entry shows the time of its own file.
pub proof fn sample_shows_kept_images<'a>(
    cfg: &'a Config,
    n: usize,
    seed: u64,
    start: SampleStep<'a>,
    children: Children,
    time: spec_fn(Seq<u8>) -> Option<u128>,
    items: Seq<(Seq<char>, u64)>,
    steps: nat,
)
    requires
        call_ensures(sample_keep, (cfg, n, seed), start),
        sampling_ends(start, children, Seq::empty(), time, items, steps),
        names_are_plain(children),
        names_differ(children),
        cfg.keep_dir@.len() > 0,
    ensures
        ({
            let all = rels(tree_images(keep_rules(*cfg), root_item(cfg.keep_dir@), children));
            &&& items.len() == (if n < all.len() {
                n as nat
            } else {
                all.len()
            })
            &&& forall|i: int, j: int|
                0 <= i < j < items.len() ==> (#[trigger] items[i]).0 != (#[trigger] items[j]).0
            &&& forall|i: int|
                0 <= i < items.len() ==> all.contains((#[trigger] items[i]).0) && items[i].1
                    == stamp(told(time), cfg.keep_dir@, items[i].0) && exists|
                    names: Seq<Seq<char>>,
                |
                    #[trigger] has_image(keep_rules(*cfg), cfg.keep_dir@, children, names)
                        && items[i].0 == slashed(names)
            &&& n >= all.len() ==> forall|i: int|
                0 <= i < all.len() ==> (#[trigger] items[i]).0 == all[i]
            &&& forall|i: int|
                0 <= i < items.len() ==> (#[trigger] items[i]).0 == sampled(
                    all,
                    n as nat,
                    seed,
                ).kept[i]
        }),
{
    let rules = keep_rules(*cfg);
    let root = root_item(cfg.keep_dir@);
    let images = tree_images(rules, root, children);
    let all = rels(images);
    let s = start->ReadDir_0;
    sampling_comes_to_all(s, children, Seq::empty(), time, items, steps);
    assert(images + images_left(rules, Seq::empty(), Seq::empty()) =~= images);
    assert(s.seen() + all =~= all);
    let kept = sampled(all, n as nat, seed).kept;
    tree_rels_are_distinct(rules, root, children);
    sample_has_its_size(all, n as nat, seed);
    sample_is_a_subset(all, n as nat, seed);
    if n >= all.len() {
        large_sample_is_everything(all, n as nat, seed);
    }
    assert forall|i: int, j: int| 0 <= i < j < items.len() implies (#[trigger] items[i]).0 != (
    #[trigger] items[j]).0 by {
        assert(items[i].0 == kept[i] && items[j].0 == kept[j]);
    }
    assert forall|i: int| 0 <= i < items.len() implies all.contains((#[trigger] items[i]).0)
        && items[i].1 == stamp(told(time), cfg.keep_dir@, items[i].0) && exists|
        names: Seq<Seq<char>>,
    |
        #[trigger] has_image(rules, cfg.keep_dir@, children, names) && items[i].0 == slashed(
            names,
        ) by {
        assert(items[i].0 == kept[i]);
        assert(all.contains(kept[i]));
        let k = choose|k: int| 0 <= k < all.len() && all[k] == kept[i];
        assert(images.contains(images[k]));
        let names = only_images_are_come_to(rules, root, children, images[k]);
        assert(has_image(rules, cfg.keep_dir@, children, names));
        assert(all[k] == slashed(names));
    }
}

/// The time that an entry shows is that of the file at its name below the keep
/// directory, or zero if that is not known.
pub proof fn entry_shows_the_time_of_its_file(
    time: spec_fn(Seq<u8>) -> Option<u64>,
    keep_dir: Seq<u8>,
    rel: Seq<char>,
)
    ensures
        time(joined(keep_dir, encode_utf8(rel))) matches Some(t) ==> stamp(
            time,
            keep_dir,
            rel,
        ) == t,
        time(joined(keep_dir, encode_utf8(rel))) is None ==> stamp(time, keep_dir, rel) == 0,
{
}

/// The number that a state of the generator gives: SplitMix64.
pub open spec fn split_mix(state: u64) -> u64 {
    let a = (state ^ (state >> 30u64)).wrapping_mul(0xBF58_476D_1CE4_E5B9u64);
    let b = (a ^ (a >> 27u64)).wrapping_mul(0x94D0_49BB_1331_11EBu64);
    b ^ (b >> 31u64)
}

/// The generator is SplitMix64: the state grows by the same number each time, and
/// a number below a bound is what is left over from dividing by the bound.
pub proof fn generator_is_split_mix(
    seed: u64,
    start: SplitMix64,
    g: &mut SplitMix64,
    r: u64,
    h: &mut SplitMix64,
    bound: u64,
    s: u64,
)
    requires
        call_ensures(SplitMix64::new, (seed,), start),
        call_ensures(SplitMix64::next_u64, (g,), r),
        bound > 0,
        call_requires(SplitMix64::next_below, (h, bound)),
        call_ensures(SplitMix64::next_below, (h, bound), s),
    ensures
        start.state() == seed,
        final(g).state() == old(g).state().wrapping_add(0x9E37_79B9_7F4A_7C15u64),
        r == split_mix(final(g).state()),
        final(h).state() == old(h).state().wrapping_add(0x9E37_79B9_7F4A_7C15u64),
        s < bound,
        s == split_mix(final(h).state()) % bound,
{
}

/// One image more: it joins a sample that is not full. It takes the place that the
/// next random number below the number of images falls on, if that is in the
/// sample; else the sample stays as it is.
pub proof fn each_image_has_its_chance(
    all: Seq<Seq<char>>,
    next: Seq<char>,
    n: nat,
    seed: u64,
)
    requires
        n > 0,
        all.len() + 1 <= u64::MAX,
        n <= usize::MAX,
    ensures
        ({
            let before = sampled(all, n, seed);
            let after = sampled(all.push(next), n, seed);
            let state = before.state.wrapping_add(0x9E37_79B9_7F4A_7C15u64);
            let slot = split_mix(state) % ((all.len() + 1) as u64);
            if all.len() < n {
                after.kept == before.kept.push(next) && after.state == before.state
            } else {
                &&& after.state == state
                &&& slot < n ==> after.kept == before.kept.update(slot as int, next)
                &&& slot >= n ==> (slot <= usize::MAX ==> after.kept == before.kept)
            }
        }),
        sampled(Seq::empty(), n, seed).kept.len() == 0,
        sampled(Seq::empty(), n, seed).state == seed,
{
    sample_has_its_size(all, n, seed);
    assert(all.push(next).drop_last() =~= all);
}

/// A listing and a sample start at the keep directory.
pub proof fn kept_images_are_looked_for_under_keep<'a>(
    cfg: &'a Config,
    sort: KeepSort,
    desc: bool,
    after: Option<(u64, &str)>,
    limit: usize,
    n: usize,
    seed: u64,
    start: ListStep<'a>,
    s: ListDir<'a>,
    dir: &Vec<u8>,
    drawing: SampleStep<'a>,
    d: SampleDir<'a>,
    sample_dir: &Vec<u8>,
)
    requires
        call_ensures(list_keep_page, (cfg, sort, desc, after, limit), start),
        call_ensures(ListDir::dir, (&s,), dir),
        call_ensures(sample_keep, (cfg, n, seed), drawing),
        call_ensures(SampleDir::dir, (&d,), sample_dir),
    ensures
        start is ReadDir,
        start == ListStep::ReadDir(s) ==> dir@ == cfg.keep_dir@,
        dir@ == s.reading().abs,
        drawing is ReadDir,
        drawing == SampleStep::ReadDir(d) ==> sample_dir@ == cfg.keep_dir@,
        sample_dir@ == d.reading().abs,
{
}

/// A listing and a sample fail if a directory cannot be read, and never otherwise.
pub proof fn unreadable_directory_stops_the_listing<'a>(
    s: ListDir<'a>,
    f: ListFile<'a>,
    d: SampleDir<'a>,
    listing: Listing,
    millis: Option<u128>,
    next: ListStep<'a>,
    behind: ListStep<'a>,
    drawing: SampleStep<'a>,
)
    requires
        call_ensures(ListDir::listed, (s, listing), next),
        call_ensures(ListFile::stamped, (f, millis), behind),
        call_requires(SampleDir::listed, (d, listing)),
        call_ensures(SampleDir::listed, (d, listing), drawing),
    ensures
        next is Failed <==> listing is Failed,
        behind !is Failed,
        drawing is Failed <==> listing is Failed,
{
}

/// A directory of kept images that is gone by now counts as one without entries.
pub proof fn missing_directory_lists_nothing<'a>(
    s: ListDir<'a>,
    none: Vec<DirEntry>,
    gone: ListStep<'a>,
    d: SampleDir<'a>,
    sample_gone: SampleStep<'a>,
)
    requires
        none@.len() == 0,
        call_ensures(ListDir::listed, (s, Listing::NotFound), gone),
        call_ensures(SampleDir::listed, (d, Listing::NotFound), sample_gone),
    ensures
        goes_on(
            gone,
            s.cfg(),
            s.rules(),
            s.query(),
            pending_after(s.rules(), s.reading(), s.pending(), Listing::Entries(none)),
            s.seen(),
        ),
        match sample_gone {
            SampleStep::ReadDir(next) => next.seen() + rels(
                seq![next.reading()] + next.pending(),
            ) == d.seen() + rels(d.pending()),
            SampleStep::Describe(step) => is_describing(
                step,
                d.cfg().keep_dir@,
                sampled(d.seen() + rels(d.pending()), d.size(), d.seed()).kept,
            ),
            SampleStep::Failed => false,
        },
{
    let nothing = Listing::Entries(none);
    assert(entry_views(none@) =~= Seq::<EntryView>::empty());
    assert(pending_after(s.rules(), s.reading(), s.pending(), nothing) =~= s.pending());
    let p = d.pending();
    let k = images_ahead(p) as int;
    images_ahead_in_range(p);
    match sample_gone {
        SampleStep::ReadDir(next) => {
            assert(p =~= p.take(k) + (seq![next.reading()] + next.pending()));
            rels_append(p.take(k), seq![next.reading()] + next.pending());
            assert(next.seen() + rels(seq![next.reading()] + next.pending()) =~= d.seen() + rels(
                p,
            ));
        },
        SampleStep::Describe(_) => {
            assert(p.take(k) =~= p);
        },
        SampleStep::Failed => {},
    }
}

/// A sample takes a directory in if all that is pending and all its entries could
/// be counted as well.
pub proof fn sample_fits_up_to_the_largest_number<'a>(
    d: SampleDir<'a>,
    entries: Vec<DirEntry>,
    r: bool,
)
    requires
        call_ensures(SampleDir::fits, (&d, &Listing::Entries(entries)), r),
    ensures
        r <==> d.counted() + d.pending().len() + entries@.len() <= 0xffff_ffff_ffff_ffff,
        r ==> call_requires(SampleDir::listed, (d, Listing::Entries(entries))),
{
}

} // verus!
