//! The gallery of kept images: one page of a listing at a time, and random
//! samples.
//!
//! Both walk the keep directory afresh on each call and hold no list of all
//! images. A listing keeps the entries of its page, a sample keeps its
//! reservoir. The file system is reached one question at a time: a listing says
//! which directory to read or which file to ask the modification time of, and is
//! told the answer.

use crate::config::Config;
use crate::order::{
    text_before, text_lt, text_lt_asymmetric, text_lt_irreflexive, text_lt_total,
    text_lt_transitive,
};
use crate::text::views;
use crate::unix_path::{copy_bytes, join, joined};
use crate::walk::{
    images_ahead, images_ahead_is, keep_rules, pending_after, root_item, slice_views, start_at,
    Item, ItemView, Listing, Rules, Walk,
};
use vstd::prelude::*;
use vstd::relations::{
    antisymmetric, reflexive, sorted_by, strongly_connected, total_ordering, transitive,
};
use vstd::seq_lib::{lemma_sorted_unique, to_multiset_insert};
use vstd::utf8::encode_utf8;

verus! {

/// What a listing is sorted by.
#[derive(Debug, Clone, Copy, PartialEq, Eq, Structural)]
pub enum KeepSort {
    /// The relative path, compared by its bytes.
    Name,
    /// The modification time. A rename keeps it, so for a kept file it is the
    /// time of generation, whenever the file was looked at.
    Mtime,
}

/// An entry of the gallery: the relative path, and the modification time in
/// milliseconds since the epoch, or 0 if it is not known.
#[derive(Debug, Clone, PartialEq, Eq)]
pub struct KeepItem {
    pub rel: String,
    pub mtime_ms: u64,
}

/// What entries are ordered by: a time, and the relative path for equal times.
pub type Key = (u64, Seq<char>);

/// Whether the key `a` is smaller than the key `b`.
pub open spec fn key_lt(a: Key, b: Key) -> bool {
    a.0 < b.0 || (a.0 == b.0 && text_lt(a.1, b.1))
}

/// Whether `a` is listed before `b`: the larger key first if `desc`, else the
/// smaller.
pub open spec fn listed_before(desc: bool, a: Key, b: Key) -> bool {
    if desc {
        key_lt(b, a)
    } else {
        key_lt(a, b)
    }
}

/// The order of a listing.
pub open spec fn listing_order(desc: bool) -> spec_fn(Key, Key) -> bool {
    |a: Key, b: Key| !listed_before(desc, b, a)
}

/// Keys in the order of a listing.
pub open spec fn ordered(desc: bool, keys: Seq<Key>) -> Seq<Key> {
    keys.sort_by(listing_order(desc))
}

/// The first `limit` of some keys, or all of them if they are fewer.
pub open spec fn at_most(limit: nat, keys: Seq<Key>) -> Seq<Key> {
    if limit < keys.len() {
        keys.take(limit as int)
    } else {
        keys
    }
}

/// Whether a key is listed after the cursor.
pub open spec fn is_listed(desc: bool, after: Option<Key>, key: Key) -> bool {
    after matches Some(a) ==> listed_before(desc, a, key)
}

/// A page of a listing: of the keys after the cursor the first `limit`, in
/// order.
pub open spec fn page(desc: bool, after: Option<Key>, limit: nat, keys: Seq<Key>) -> Seq<Key> {
    at_most(limit, ordered(desc, keys.filter(|k: Key| is_listed(desc, after, k))))
}

/// Of two different keys one is listed before the other, and not the other way
/// round.
pub proof fn listing_is_total(desc: bool, a: Key, b: Key)
    ensures
        !listed_before(desc, a, a),
        !(listed_before(desc, a, b) && listed_before(desc, b, a)),
        listed_before(desc, a, b) || listed_before(desc, b, a) || a == b,
{
    text_lt_irreflexive(a.1);
    text_lt_total(a.1, b.1);
    if text_lt(a.1, b.1) {
        text_lt_asymmetric(a.1, b.1);
    }
    if text_lt(b.1, a.1) {
        text_lt_asymmetric(b.1, a.1);
    }
}

/// Being listed before is transitive.
pub proof fn listing_is_transitive(desc: bool, a: Key, b: Key, c: Key)
    requires
        listed_before(desc, a, b),
        listed_before(desc, b, c),
    ensures
        listed_before(desc, a, c),
{
    if a.0 == b.0 && b.0 == c.0 {
        if desc {
            text_lt_transitive(c.1, b.1, a.1);
        } else {
            text_lt_transitive(a.1, b.1, c.1);
        }
    }
}

proof fn listing_order_is_total(desc: bool)
    ensures
        total_ordering(listing_order(desc)),
{
    let leq = listing_order(desc);
    assert forall|a: Key| #[trigger] leq(a, a) by {
        listing_is_total(desc, a, a);
    }
    assert forall|a: Key, b: Key| #[trigger] leq(a, b) && #[trigger] leq(b, a) implies a == b by {
        listing_is_total(desc, a, b);
    }
    assert forall|a: Key, b: Key, c: Key| #[trigger] leq(a, b) && #[trigger] leq(b, c) implies leq(
        a,
        c,
    ) by {
        listing_is_total(desc, a, b);
        listing_is_total(desc, b, c);
        listing_is_total(desc, a, c);
        if listed_before(desc, a, b) && listed_before(desc, b, c) {
            listing_is_transitive(desc, a, b, c);
        }
    }
    assert forall|a: Key, b: Key| #[trigger] leq(a, b) || #[trigger] leq(b, a) by {
        listing_is_total(desc, a, b);
    }
    assert(reflexive(leq));
    assert(antisymmetric(leq));
    assert(transitive(leq));
    assert(strongly_connected(leq));
}

/// Ordering keys keeps them all, puts them in order, and is settled by which
/// keys they are.
pub(crate) proof fn ordering(desc: bool, keys: Seq<Key>)
    ensures
        ordered(desc, keys).to_multiset() == keys.to_multiset(),
        ordered(desc, keys).len() == keys.len(),
        sorted_by(ordered(desc, keys), listing_order(desc)),
{
    listing_order_is_total(desc);
    keys.lemma_sort_by_ensures(listing_order(desc));
    keys.to_multiset_ensures();
    ordered(desc, keys).to_multiset_ensures();
}

proof fn ordering_is_unique(desc: bool, keys: Seq<Key>, result: Seq<Key>)
    requires
        sorted_by(result, listing_order(desc)),
        result.to_multiset() == keys.to_multiset(),
    ensures
        ordered(desc, keys) == result,
{
    listing_order_is_total(desc);
    ordering(desc, keys);
    lemma_sorted_unique(ordered(desc, keys), result, listing_order(desc));
}

/// Where a key goes among keys in order: behind those that it is not listed
/// before.
spec fn is_place(desc: bool, keys: Seq<Key>, key: Key, at: int) -> bool {
    &&& 0 <= at <= keys.len()
    &&& forall|i: int| 0 <= i < at ==> !listed_before(desc, key, #[trigger] keys[i])
    &&& at < keys.len() ==> listed_before(desc, key, keys[at])
}

/// Inserting a key at its place is ordering with one key more.
proof fn insertion_orders(desc: bool, keys: Seq<Key>, sorted: Seq<Key>, key: Key, at: int)
    requires
        sorted_by(sorted, listing_order(desc)),
        sorted.to_multiset() == keys.to_multiset(),
        is_place(desc, sorted, key, at),
    ensures
        ordered(desc, keys.push(key)) == sorted.insert(at, key),
{
    let result = sorted.insert(at, key);
    let leq = listing_order(desc);
    assert forall|i: int, j: int| 0 <= i < j < result.len() implies #[trigger] leq(
        result[i],
        result[j],
    ) by {
        if i < at && j == at {
            assert(!listed_before(desc, key, sorted[i]));
        } else if i == at {
            let k = sorted[j - 1];
            let first = sorted[at];
            if at < j - 1 {
                assert(leq(sorted[at], sorted[j - 1]));
                listing_is_total(desc, first, k);
                if listed_before(desc, first, k) {
                    listing_is_transitive(desc, key, first, k);
                }
            }
            listing_is_total(desc, key, k);
        } else if i < at && j > at {
            assert(leq(sorted[i], sorted[j - 1]));
        } else if i > at {
            assert(leq(sorted[i - 1], sorted[j - 1]));
        } else {
            assert(leq(sorted[i], sorted[j]));
        }
    }
    to_multiset_insert(sorted, at, key);
    keys.to_multiset_ensures();
    ordering_is_unique(desc, keys.push(key), result);
}

/// A page with one key more, when the page has room.
proof fn page_with_room(desc: bool, limit: nat, keys: Seq<Key>, key: Key)
    requires
        at_most(limit, ordered(desc, keys)).len() < limit,
    ensures
        at_most(limit, ordered(desc, keys.push(key))) == ordered(
            desc,
            at_most(limit, ordered(desc, keys)).push(key),
        ),
{
    let sorted = ordered(desc, keys);
    ordering(desc, keys);
    ordering(desc, keys.push(key));
    ordering(desc, sorted.push(key));
    keys.to_multiset_ensures();
    sorted.to_multiset_ensures();
    ordering_is_unique(desc, keys.push(key), ordered(desc, sorted.push(key)));
}

/// There is a place for every key.
proof fn place_exists(desc: bool, sorted: Seq<Key>, key: Key) -> (at: int)
    ensures
        is_place(desc, sorted, key, at),
    decreases sorted.len(),
{
    if sorted.len() == 0 {
        0
    } else {
        let at = place_exists(desc, sorted.drop_last(), key);
        let rest = sorted.drop_last();
        assert forall|i: int| 0 <= i < at implies !listed_before(desc, key, #[trigger] sorted[i]) by {
            assert(rest[i] == sorted[i]);
        }
        if at < rest.len() {
            assert(rest[at] == sorted[at]);
            at
        } else if listed_before(desc, key, sorted.last()) {
            at
        } else {
            sorted.len() as int
        }
    }
}

/// A page with one key more, when the page is full.
proof fn full_page(desc: bool, limit: nat, keys: Seq<Key>, key: Key)
    requires
        0 < limit <= keys.len(),
    ensures
        ({
            let now = at_most(limit, ordered(desc, keys));
            let next = at_most(limit, ordered(desc, keys.push(key)));
            &&& now.len() == limit
            &&& next == if listed_before(desc, key, now.last()) {
                ordered(desc, now.drop_last().push(key))
            } else {
                now
            }
        }),
{
    let sorted = ordered(desc, keys);
    let now = at_most(limit, sorted);
    ordering(desc, keys);
    ordering(desc, keys.push(key));
    keys.to_multiset_ensures();
    let at = place_exists(desc, sorted, key);
    insertion_orders(desc, keys, sorted, key, at);
    let after = sorted.insert(at, key);
    assert(now =~= sorted.take(limit as int));
    assert(at_most(limit, after) =~= after.take(limit as int));
    let last = now.last();
    assert(last == sorted[limit - 1]);
    if listed_before(desc, key, last) {
        assert(at <= limit - 1) by {
            if at > limit - 1 {
                assert(!listed_before(desc, key, sorted[limit - 1]));
            }
        }
        let kept = now.drop_last();
        let leq = listing_order(desc);
        assert forall|i: int, j: int| 0 <= i < j < kept.len() implies #[trigger] leq(
            kept[i],
            kept[j],
        ) by {
            assert(leq(sorted[i], sorted[j]));
        }
        assert(is_place(desc, kept, key, at)) by {
            assert forall|i: int| 0 <= i < at implies !listed_before(
                desc,
                key,
                #[trigger] kept[i],
            ) by {
                assert(kept[i] == sorted[i]);
            }
        }
        insertion_orders(desc, kept, kept, key, at);
        assert(kept.insert(at, key) =~= after.take(limit as int));
    } else {
        assert(at >= limit) by {
            if at < limit {
                let first = sorted[at];
                if at < limit - 1 {
                    assert(listing_order(desc)(sorted[at], sorted[limit - 1]));
                    listing_is_total(desc, first, last);
                    if listed_before(desc, first, last) {
                        listing_is_transitive(desc, key, first, last);
                    }
                }
            }
        }
        assert(after.take(limit as int) =~= now);
    }
}

/// The keys that a list of pairs holds.
pub open spec fn keys_of(v: Seq<(u64, String)>) -> Seq<Key> {
    v.map_values(|k: (u64, String)| (k.0, k.1@))
}

/// Whether the first key is listed before the second.
fn goes_before(desc: bool, a: (u64, &str), b: (u64, &str)) -> (r: bool)
    ensures
        r == listed_before(desc, (a.0, a.1@), (b.0, b.1@)),
{
    if desc {
        b.0 < a.0 || (b.0 == a.0 && text_before(b.1, a.1))
    } else {
        a.0 < b.0 || (a.0 == b.0 && text_before(a.1, b.1))
    }
}

/// The entries of a page, in order, the next to go last.
pub struct PageHeap {
    desc: bool,
    keys: Vec<(u64, String)>,
}

impl View for PageHeap {
    type V = Seq<Key>;

    closed spec fn view(&self) -> Seq<Key> {
        keys_of(self.keys@)
    }
}

impl PageHeap {
    #[verifier::type_invariant]
    spec fn in_order(self) -> bool {
        sorted_by(self@, listing_order(self.desc))
    }

    /// Whether larger keys come first.
    pub closed spec fn desc(self) -> bool {
        self.desc
    }

    /// A page with no entries.
    pub fn new(desc: bool) -> (r: PageHeap)
        ensures
            r.desc() == desc,
            r@ == Seq::<Key>::empty(),
    {
        let r = PageHeap { desc, keys: Vec::new() };
        assert(r@ =~= Seq::<Key>::empty());
        r
    }

    /// How many entries the page has.
    pub fn len(&self) -> (r: usize)
        ensures
            r == self@.len(),
    {
        self.keys.len()
    }

    /// The entry that is the next to go.
    pub fn worst(&self) -> (r: Option<(u64, &str)>)
        ensures
            match r {
                Some(k) => self@.len() > 0 && (k.0, k.1@) == self@.last(),
                None => self@.len() == 0,
            },
    {
        let n: usize = self.keys.len();
        if n == 0 {
            None
        } else {
            let last = &self.keys[n - 1];
            Some((last.0, last.1.as_str()))
        }
    }

    /// Put an entry in its place.
    pub fn push(&mut self, key: (u64, String))
        ensures
            final(self).desc() == old(self).desc(),
            final(self)@ == ordered(old(self).desc(), old(self)@.push((key.0, key.1@))),
    {
        proof {
            use_type_invariant(&*self);
        }
        let desc = self.desc;
        let ghost before = self@;
        let ghost new: Key = (key.0, key.1@);
        let mut keys: Vec<(u64, String)> = Vec::new();
        std::mem::swap(&mut keys, &mut self.keys);
        let n: usize = keys.len();
        let mut at: usize = 0;
        while at < n && !goes_before(
            desc,
            (key.0, key.1.as_str()),
            (keys[at].0, keys[at].1.as_str()),
        )
            invariant
                at <= n,
                n == keys@.len(),
                before == keys_of(keys@),
                new == (key.0, key.1@),
                forall|i: int| 0 <= i < at ==> !listed_before(desc, new, #[trigger] before[i]),
            ensures
                at < n ==> listed_before(desc, new, before[at as int]),
            decreases n - at,
        {
            at = at + 1;
        }
        proof {
            insertion_orders(desc, before, before, new, at as int);
            ordering(desc, before.push(new));
        }
        keys.insert(at, key);
        assert(keys_of(keys@) =~= before.insert(at as int, new));
        self.keys = keys;
    }

    /// Drop the entry that is the next to go, if there is one.
    pub fn pop(&mut self)
        ensures
            final(self).desc() == old(self).desc(),
            final(self)@ == (if old(self)@.len() > 0 {
                old(self)@.drop_last()
            } else {
                old(self)@
            }),
    {
        proof {
            use_type_invariant(&*self);
        }
        let ghost before = self@;
        let ghost desc = self.desc;
        let mut keys: Vec<(u64, String)> = Vec::new();
        std::mem::swap(&mut keys, &mut self.keys);
        let _ = keys.pop();
        proof {
            assert(keys_of(keys@) =~= if before.len() > 0 {
                before.drop_last()
            } else {
                before
            });
            assert forall|i: int, j: int| 0 <= i < j < keys@.len() implies #[trigger] listing_order(
                desc,
            )(keys_of(keys@)[i], keys_of(keys@)[j]) by {
                assert(listing_order(desc)(before[i], before[j]));
            }
        }
        self.keys = keys;
    }

    /// The entries, in order.
    pub fn into_sorted(self) -> (r: Vec<(u64, String)>)
        ensures
            keys_of(r@) == self@,
            keys_of(r@) == ordered(self.desc(), self@),
    {
        proof {
            use_type_invariant(&self);
            ordering_is_unique(self.desc, self@, self@);
        }
        self.keys
    }
}

/// The cursor as a key.
pub open spec fn cursor_key(after: Option<(u64, String)>) -> Option<Key> {
    match after {
        Some(a) => Some((a.0, a.1@)),
        None => None,
    }
}

/// Take one more entry into account: it joins the page if it is listed and the
/// page has room, or takes the place of the worst entry if it is better.
fn offer(
    heap: &mut PageHeap,
    desc: bool,
    after: &Option<(u64, String)>,
    limit: usize,
    time: u64,
    rel: String,
    Ghost(keys): Ghost<Seq<Key>>,
)
    requires
        old(heap).desc() == desc,
        old(heap)@ == page(desc, cursor_key(*after), limit as nat, keys),
    ensures
        final(heap).desc() == desc,
        final(heap)@ == page(desc, cursor_key(*after), limit as nat, keys.push((time, rel@))),
{
    let ghost cursor = cursor_key(*after);
    let ghost key: Key = (time, rel@);
    let ghost pred = |k: Key| is_listed(desc, cursor, k);
    let ghost listed = keys.filter(pred);
    proof {
        let more = keys.push(key);
        assert(more.drop_last() =~= keys);
        reveal(Seq::filter);
        assert(more.filter(pred) =~= if is_listed(desc, cursor, key) {
            listed.push(key)
        } else {
            listed
        });
        ordering(desc, listed);
    }
    let eligible = match after {
        Some(a) => goes_before(desc, (a.0, a.1.as_str()), (time, rel.as_str())),
        None => true,
    };
    if !eligible {
        return;
    }
    if heap.len() < limit {
        proof {
            page_with_room(desc, limit as nat, listed, key);
        }
        heap.push((time, rel));
        return;
    }
    let better = match heap.worst() {
        Some(w) => goes_before(desc, (time, rel.as_str()), w),
        None => false,
    };
    proof {
        if limit > 0 {
            full_page(desc, limit as nat, listed, key);
        } else {
            ordering(desc, listed.push(key));
        }
    }
    if better {
        heap.pop();
        heap.push((time, rel));
    }
}

/// A modification time in milliseconds since the epoch, as far as it fits.
pub open spec fn time_of(millis: Option<u128>) -> Option<u64> {
    match millis {
        Some(m) => Some((m % 0x1_0000_0000_0000_0000) as u64),
        None => None,
    }
}

/// The modification time of a file, given the milliseconds from the epoch to it;
/// `None` if the file could not be asked, or is older than the epoch.
pub fn mtime_ms(millis: Option<u128>) -> (r: Option<u64>)
    ensures
        r == time_of(millis),
{
    match millis {
        Some(m) => {
            assert(m as u64 == (m % 0x1_0000_0000_0000_0000) as u64) by (bit_vector);
            Some(m as u64)
        },
        None => None,
    }
}

/// What a list of entries shows: the relative paths and the times.
pub open spec fn shown(items: Seq<KeepItem>) -> Seq<(Seq<char>, u64)> {
    items.map_values(|i: KeepItem| (i.rel@, i.mtime_ms))
}

/// Entries that are chosen, and wait for their modification times.
pub struct Describe {
    keep_dir: Vec<u8>,
    rels: Vec<String>,
    done: Vec<KeepItem>,
    path: Vec<u8>,
}

/// What chosen entries need.
pub enum DescribeStep {
    /// Ask for the modification time of a file.
    Stat(Describe),
    /// Nothing more: these are the entries.
    Done(Vec<KeepItem>),
}

impl Describe {
    #[verifier::type_invariant]
    spec fn some_left(self) -> bool {
        &&& self.done@.len() < self.rels@.len()
        &&& self.path@ == joined(
            self.keep_dir@,
            encode_utf8(self.rels@[self.done@.len() as int]@),
        )
        &&& forall|i: int|
            0 <= i < self.done@.len() ==> (#[trigger] self.done@[i]).rel@ == self.rels@[i]@
    }

    pub closed spec fn keep_dir(self) -> Seq<u8> {
        self.keep_dir@
    }

    /// All the entries.
    pub closed spec fn rels(self) -> Seq<Seq<char>> {
        views(self.rels@)
    }

    /// The times that are known: those of the first entries.
    pub closed spec fn times(self) -> Seq<u64> {
        self.done@.map_values(|i: KeepItem| i.mtime_ms)
    }

    /// The file to ask.
    pub fn file(&self) -> (r: &Vec<u8>)
        ensures
            self.times().len() < self.rels().len(),
            r@ == joined(self.keep_dir(), encode_utf8(self.rels()[self.times().len() as int])),
    {
        proof {
            use_type_invariant(self);
        }
        &self.path
    }

    /// Go on, knowing when the file was modified: a time that is not known shows
    /// as 0.
    pub fn stamped(self, millis: Option<u128>) -> (r: DescribeStep)
        ensures
            ({
                let time = match time_of(millis) {
                    Some(t) => t,
                    None => 0,
                };
                let times = self.times().push(time);
                match r {
                    DescribeStep::Stat(next) => {
                        &&& times.len() < self.rels().len()
                        &&& next.keep_dir() == self.keep_dir()
                        &&& next.rels() == self.rels()
                        &&& next.times() == times
                    },
                    DescribeStep::Done(items) => times.len() == self.rels().len() && shown(items@)
                        == Seq::new(times.len(), |i: int| (self.rels()[i], times[i])),
                }
            }),
    {
        proof {
            use_type_invariant(&self);
        }
        let time = match mtime_ms(millis) {
            Some(t) => t,
            None => 0,
        };
        let ghost times = self.times().push(time);
        let Describe { keep_dir, rels, done, path: _ } = self;
        let mut done = done;
        let n: usize = done.len();
        let all: usize = rels.len();
        done.push(KeepItem { rel: rels[n].as_str().to_owned(), mtime_ms: time });
        assert(done@.map_values(|i: KeepItem| i.mtime_ms) =~= times);
        if n + 1 < all {
            let path = join(keep_dir.as_slice(), rels[n + 1].as_str().as_bytes());
            DescribeStep::Stat(Describe { keep_dir, rels, done, path })
        } else {
            assert(shown(done@) =~= Seq::new(times.len(), |i: int| (views(rels@)[i], times[i])));
            DescribeStep::Done(done)
        }
    }
}

/// Whether a step is the first on the way to describing `rels`.
pub open spec fn is_describing(step: DescribeStep, keep_dir: Seq<u8>, rels: Seq<Seq<char>>) -> bool {
    match step {
        DescribeStep::Stat(d) => {
            &&& rels.len() > 0
            &&& d.keep_dir() == keep_dir
            &&& d.rels() == rels
            &&& d.times() == Seq::<u64>::empty()
        },
        DescribeStep::Done(items) => rels.len() == 0 && items@.len() == 0,
    }
}

/// What entries show if each file is modified when `time` says.
pub open spec fn described(
    time: spec_fn(Seq<u8>) -> Option<u64>,
    keep_dir: Seq<u8>,
    rels: Seq<Seq<char>>,
) -> Seq<(Seq<char>, u64)> {
    rels.map_values(|rel: Seq<char>| (rel, stamp(time, keep_dir, rel)))
}

/// The time that an entry shows: that of its file, or 0 if it is not known.
pub open spec fn stamp(
    time: spec_fn(Seq<u8>) -> Option<u64>,
    keep_dir: Seq<u8>,
    rel: Seq<char>,
) -> u64 {
    match time(joined(keep_dir, encode_utf8(rel))) {
        Some(t) => t,
        None => 0,
    }
}

/// What entries show when all their times are known, if the times `known` are
/// known already and each file that is asked for is answered from `time`; `None`
/// if more than `steps` are asked for. The questions go on as
/// [`Describe::stamped`] states.
pub open spec fn asked(
    time: spec_fn(Seq<u8>) -> Option<u64>,
    keep_dir: Seq<u8>,
    rels: Seq<Seq<char>>,
    known: Seq<u64>,
    steps: nat,
) -> Option<Seq<(Seq<char>, u64)>>
    decreases steps,
{
    if known.len() >= rels.len() {
        Some(Seq::new(rels.len(), |i: int| (rels[i], known[i])))
    } else if steps == 0 {
        None
    } else {
        asked(
            time,
            keep_dir,
            rels,
            known.push(stamp(time, keep_dir, rels[known.len() as int])),
            (steps - 1) as nat,
        )
    }
}

/// Asking for the times of entries ends, and every entry then shows the time of
/// its own file, or 0 if it is not known.
pub proof fn entries_show_their_times(
    time: spec_fn(Seq<u8>) -> Option<u64>,
    keep_dir: Seq<u8>,
    rels: Seq<Seq<char>>,
)
    ensures
        asked(time, keep_dir, rels, Seq::empty(), rels.len()) == Some(
            described(time, keep_dir, rels),
        ),
{
    questions_go_on(time, keep_dir, rels, Seq::empty());
}

proof fn questions_go_on(
    time: spec_fn(Seq<u8>) -> Option<u64>,
    keep_dir: Seq<u8>,
    rels: Seq<Seq<char>>,
    known: Seq<u64>,
)
    requires
        known.len() <= rels.len(),
        forall|i: int| 0 <= i < known.len() ==> #[trigger] known[i] == stamp(time, keep_dir, rels[i]),
    ensures
        asked(time, keep_dir, rels, known, (rels.len() - known.len()) as nat) == Some(
            described(time, keep_dir, rels),
        ),
    decreases rels.len() - known.len(),
{
    if known.len() < rels.len() {
        questions_go_on(
            time,
            keep_dir,
            rels,
            known.push(stamp(time, keep_dir, rels[known.len() as int])),
        );
    } else {
        assert(Seq::new(rels.len(), |i: int| (rels[i], known[i])) =~= described(
            time,
            keep_dir,
            rels,
        ));
    }
}

/// Find out the modification times of the entries `rels`.
pub(crate) fn describe(keep_dir: &Vec<u8>, rels: Vec<String>) -> (r: DescribeStep)
    ensures
        is_describing(r, keep_dir@, views(rels@)),
{
    if rels.len() == 0 {
        DescribeStep::Done(Vec::new())
    } else {
        let path = join(keep_dir.as_slice(), rels[0].as_str().as_bytes());
        let r = Describe {
            keep_dir: copy_bytes(keep_dir.as_slice()),
            rels,
            done: Vec::new(),
            path,
        };
        assert(r.times() =~= Seq::<u64>::empty());
        DescribeStep::Stat(r)
    }
}

/// What a listing is asked for.
pub struct PageQuery {
    pub sort: KeepSort,
    pub desc: bool,
    pub after: Option<Key>,
    pub limit: nat,
}

/// What a listing has come to.
struct Listed<'a> {
    cfg: &'a Config,
    walk: Walk<'a>,
    sort: KeepSort,
    desc: bool,
    after: Option<(u64, String)>,
    limit: usize,
    heap: PageHeap,
    seen: Ghost<Seq<Key>>,
}

impl<'a> Listed<'a> {
    #[verifier::type_invariant]
    spec fn heap_is_page(self) -> bool {
        &&& self.heap.desc() == self.desc
        &&& self.heap@ == page(self.desc, cursor_key(self.after), self.limit as nat, self.seen@)
    }

    spec fn query(self) -> PageQuery {
        PageQuery {
            sort: self.sort,
            desc: self.desc,
            after: cursor_key(self.after),
            limit: self.limit as nat,
        }
    }
}

/// A listing, waiting for a directory to be read.
pub struct ListDir<'a> {
    so_far: Listed<'a>,
    dir: Item,
}

/// A listing, waiting for the modification time of a file.
pub struct ListFile<'a> {
    so_far: Listed<'a>,
    item: Item,
}

/// What a listing needs.
pub enum ListStep<'a> {
    /// Read a directory.
    ReadDir(ListDir<'a>),
    /// Ask for the modification time of a file.
    Stat(ListFile<'a>),
    /// The page is settled; what its entries still need.
    Describe(DescribeStep),
    /// Nothing more: a directory could not be read.
    Failed,
}

/// The keys of images whose times are not asked for.
pub open spec fn name_keys(items: Seq<ItemView>) -> Seq<Key> {
    items.map_values(|i: ItemView| (0u64, i.rel))
}

/// How many images a listing takes in before it has to ask something.
pub open spec fn taken_in(sort: KeepSort, pending: Seq<ItemView>) -> nat {
    match sort {
        KeepSort::Name => images_ahead(pending),
        KeepSort::Mtime => 0,
    }
}

/// Whether a step is what a page comes to: sorted by time the times are known,
/// sorted by name they have yet to be found out.
pub open spec fn is_settled(
    step: DescribeStep,
    sort: KeepSort,
    keep_dir: Seq<u8>,
    page: Seq<Key>,
) -> bool {
    match sort {
        KeepSort::Mtime => step matches DescribeStep::Done(items) && shown(items@)
            == page.map_values(|k: Key| (k.1, k.0)),
        KeepSort::Name => is_describing(step, keep_dir, page.map_values(|k: Key| k.1)),
    }
}

/// What a listing goes on with, when the items `pending` are ahead and the keys
/// `seen` are behind it.
pub open spec fn goes_on(
    step: ListStep<'_>,
    cfg: Config,
    rules: Rules,
    query: PageQuery,
    pending: Seq<ItemView>,
    seen: Seq<Key>,
) -> bool {
    let k = taken_in(query.sort, pending) as int;
    let seen = seen + name_keys(pending.take(k));
    match step {
        ListStep::ReadDir(next) => {
            &&& k < pending.len()
            &&& pending[k].dir
            &&& next.reading() == pending[k]
            &&& next.pending() == pending.skip(k + 1)
            &&& next.seen() == seen
            &&& next.cfg() == cfg
            &&& next.rules() == rules
            &&& next.query() == query
        },
        ListStep::Stat(next) => {
            &&& k < pending.len()
            &&& !pending[k].dir
            &&& next.asking() == pending[k]
            &&& next.pending() == pending.skip(k + 1)
            &&& next.seen() == seen
            &&& next.cfg() == cfg
            &&& next.rules() == rules
            &&& next.query() == query
        },
        ListStep::Describe(step) => {
            &&& k == pending.len()
            &&& is_settled(
                step,
                query.sort,
                cfg.keep_dir@,
                page(query.desc, query.after, query.limit, seen),
            )
        },
        ListStep::Failed => false,
    }
}

/// The page's entries, when nothing is left to walk.
fn settle(cfg: &Config, sort: KeepSort, heap: PageHeap) -> (r: DescribeStep)
    ensures
        is_settled(r, sort, cfg.keep_dir@, heap@),
{
    let ghost keys = heap@;
    let sorted = heap.into_sorted();
    let n: usize = sorted.len();
    match sort {
        KeepSort::Mtime => {
            let mut items: Vec<KeepItem> = Vec::new();
            while items.len() < n
                invariant
                    items@.len() <= n,
                    n == keys.len(),
                    keys_of(sorted@) == keys,
                    forall|i: int|
                        0 <= i < items@.len() ==> (#[trigger] items@[i]).rel@ == keys[i].1
                            && items@[i].mtime_ms == keys[i].0,
                decreases n - items@.len(),
            {
                let key = &sorted[items.len()];
                assert(keys[items@.len() as int] == (key.0, key.1@));
                items.push(KeepItem { rel: key.1.as_str().to_owned(), mtime_ms: key.0 });
            }
            assert(shown(items@) =~= keys.map_values(|k: Key| (k.1, k.0)));
            DescribeStep::Done(items)
        },
        KeepSort::Name => {
            let mut rels: Vec<String> = Vec::new();
            while rels.len() < n
                invariant
                    rels@.len() <= n,
                    n == keys.len(),
                    keys_of(sorted@) == keys,
                    forall|i: int| 0 <= i < rels@.len() ==> (#[trigger] rels@[i])@ == keys[i].1,
                decreases n - rels@.len(),
            {
                let key = &sorted[rels.len()];
                assert(keys[rels@.len() as int] == (key.0, key.1@));
                rels.push(key.1.as_str().to_owned());
            }
            assert(views(rels@) =~= keys.map_values(|k: Key| k.1));
            describe(&cfg.keep_dir, rels)
        },
    }
}

/// Go on with a listing until something has to be asked, or the page is settled.
fn proceed<'a>(so_far: Listed<'a>) -> (r: ListStep<'a>)
    ensures
        goes_on(
            r,
            *so_far.cfg,
            so_far.walk.rules(),
            so_far.query(),
            so_far.walk.pending(),
            so_far.seen@,
        ),
{
    proof {
        use_type_invariant(&so_far);
    }
    let ghost p = so_far.walk.pending();
    let ghost before = so_far.seen@;
    let ghost rules = so_far.walk.rules();
    let ghost query = so_far.query();
    let Listed { cfg, walk, sort, desc, after, limit, heap, seen } = so_far;
    let mut walk = walk;
    let mut heap = heap;
    let mut seen = seen;
    let ghost mut k: int = 0;
    assert(p.skip(0) =~= p);
    assert(before + name_keys(p.take(0)) =~= before);
    loop
        invariant
            0 <= k <= p.len(),
            *cfg == *so_far.cfg,
            query == so_far.query(),
            rules == so_far.walk.rules(),
            p == so_far.walk.pending(),
            before == so_far.seen@,
            query == (PageQuery { sort, desc, after: cursor_key(after), limit: limit as nat }),
            sort == KeepSort::Mtime ==> k == 0,
            walk.rules() == rules,
            walk.pending() == p.skip(k),
            forall|i: int| 0 <= i < k ==> !(#[trigger] p[i]).dir,
            seen@ == before + name_keys(p.take(k)),
            heap.desc() == desc,
            heap@ == page(desc, cursor_key(after), limit as nat, seen@),
        decreases walk.pending().len(),
    {
        match walk.take() {
            None => {
                proof {
                    images_ahead_is(p, k as nat);
                }
                return ListStep::Describe(settle(cfg, sort, heap));
            },
            Some(item) => {
                assert(item@ == p[k]);
                assert(p.skip(k).drop_first() =~= p.skip(k + 1));
                if item.dir {
                    proof {
                        images_ahead_is(p, k as nat);
                    }
                    let so_far = Listed { cfg, walk, sort, desc, after, limit, heap, seen };
                    return ListStep::ReadDir(ListDir { so_far, dir: item });
                }
                match sort {
                    KeepSort::Mtime => {
                        let so_far = Listed { cfg, walk, sort, desc, after, limit, heap, seen };
                        return ListStep::Stat(ListFile { so_far, item });
                    },
                    KeepSort::Name => {
                        let ghost rel = item.rel@;
                        offer(&mut heap, desc, &after, limit, 0, item.rel, Ghost(seen@));
                        proof {
                            seen@ = seen@.push((0u64, rel));
                            assert(seen@ =~= before + name_keys(p.take(k + 1)));
                            k = k + 1;
                        }
                    },
                }
            },
        }
    }
}

impl<'a> ListDir<'a> {
    pub closed spec fn cfg(self) -> Config {
        *self.so_far.cfg
    }

    pub closed spec fn rules(self) -> Rules {
        self.so_far.walk.rules()
    }

    /// What is asked for.
    pub closed spec fn query(self) -> PageQuery {
        self.so_far.query()
    }

    /// The directory to read.
    pub closed spec fn reading(self) -> ItemView {
        self.dir@
    }

    /// What comes after that directory.
    pub closed spec fn pending(self) -> Seq<ItemView> {
        self.so_far.walk.pending()
    }

    /// The keys that the listing has come to.
    pub closed spec fn seen(self) -> Seq<Key> {
        self.so_far.seen@
    }

    /// The directory to read.
    pub fn dir(&self) -> (r: &Vec<u8>)
        ensures
            r@ == self.reading().abs,
    {
        &self.dir.abs
    }

    /// Go on, knowing what the directory holds. A directory that is gone by now
    /// holds nothing.
    pub fn listed(self, listing: Listing) -> (r: ListStep<'a>)
        ensures
            listing is Failed ==> r is Failed,
            listing !is Failed ==> goes_on(
                r,
                self.cfg(),
                self.rules(),
                self.query(),
                pending_after(self.rules(), self.reading(), self.pending(), listing),
                self.seen(),
            ),
    {
        let ListDir { so_far, dir } = self;
        let mut so_far = so_far;
        match listing {
            Listing::Failed => {
                return ListStep::Failed;
            },
            Listing::NotFound => {},
            Listing::Entries(entries) => {
                proof {
                    use_type_invariant(&so_far);
                }
                let Listed { cfg, walk, sort, desc, after, limit, heap, seen } = so_far;
                let mut walk = walk;
                walk.add(&dir, entries);
                so_far = Listed { cfg, walk, sort, desc, after, limit, heap, seen };
            },
        }
        proceed(so_far)
    }
}

impl<'a> ListFile<'a> {
    pub closed spec fn cfg(self) -> Config {
        *self.so_far.cfg
    }

    pub closed spec fn rules(self) -> Rules {
        self.so_far.walk.rules()
    }

    /// What is asked for.
    pub closed spec fn query(self) -> PageQuery {
        self.so_far.query()
    }

    /// The image to ask.
    pub closed spec fn asking(self) -> ItemView {
        self.item@
    }

    /// What comes after that image.
    pub closed spec fn pending(self) -> Seq<ItemView> {
        self.so_far.walk.pending()
    }

    /// The keys that the listing has come to.
    pub closed spec fn seen(self) -> Seq<Key> {
        self.so_far.seen@
    }

    /// The file to ask.
    pub fn file(&self) -> (r: &Vec<u8>)
        ensures
            r@ == self.asking().abs,
    {
        &self.item.abs
    }

    /// Go on, knowing when the file was modified. A file that could not be asked
    /// is left out.
    pub fn stamped(self, millis: Option<u128>) -> (r: ListStep<'a>)
        ensures
            goes_on(
                r,
                self.cfg(),
                self.rules(),
                self.query(),
                self.pending(),
                match time_of(millis) {
                    Some(t) => self.seen().push((t, self.asking().rel)),
                    None => self.seen(),
                },
            ),
    {
        let ListFile { so_far, item } = self;
        let time = match mtime_ms(millis) {
            Some(t) => t,
            None => {
                return proceed(so_far);
            },
        };
        proof {
            use_type_invariant(&so_far);
        }
        let ghost rel = item.rel@;
        let Listed { cfg, walk, sort, desc, after, limit, heap, seen } = so_far;
        let mut heap = heap;
        let mut seen = seen;
        offer(&mut heap, desc, &after, limit, time, item.rel, Ghost(seen@));
        proof {
            seen@ = seen@.push((time, rel));
        }
        proceed(Listed { cfg, walk, sort, desc, after, limit, heap, seen })
    }
}

/// A walk of the kept images, with nothing pending.
pub(crate) fn keep_walk<'a>(cfg: &'a Config) -> (r: Walk<'a>)
    ensures
        r.cfg() == *cfg,
        r.rules() == keep_rules(*cfg),
        r.pending() == Seq::<ItemView>::empty(),
{
    let prune: Vec<&'a [u8]> = Vec::new();
    assert(slice_views(prune@) =~= Seq::<Seq<u8>>::empty());
    Walk::new(cfg, prune)
}

/// List one page of the gallery: up to `limit` entries behind the cursor
/// `after`, ordered by `sort`, the largest first if `desc`. The cursor is the
/// time and the relative path of the last entry of the page before; sorted by
/// name the time counts as 0. Starts with the keep directory.
pub fn list_keep_page<'a>(
    cfg: &'a Config,
    sort: KeepSort,
    desc: bool,
    after: Option<(u64, &str)>,
    limit: usize,
) -> (r: ListStep<'a>)
    ensures
        r matches ListStep::ReadDir(s) && {
            &&& s.cfg() == *cfg
            &&& s.rules() == keep_rules(*cfg)
            &&& s.query() == (PageQuery {
                sort,
                desc,
                after: match after {
                    Some(a) => Some((a.0, a.1@)),
                    None => None,
                },
                limit: limit as nat,
            })
            &&& s.reading() == root_item(cfg.keep_dir@)
            &&& s.pending() == Seq::<ItemView>::empty()
            &&& s.seen() == Seq::<Key>::empty()
        },
{
    let after = match after {
        Some(a) => Some((a.0, a.1.to_owned())),
        None => None,
    };
    let heap = PageHeap::new(desc);
    proof {
        let none = Seq::<Key>::empty();
        let cursor = cursor_key(after);
        reveal(Seq::filter);
        assert(none.filter(|k: Key| is_listed(desc, cursor, k)) =~= none);
        ordering(desc, none);
        assert(page(desc, cursor, limit as nat, none) =~= none);
    }
    let so_far = Listed {
        cfg,
        walk: keep_walk(cfg),
        sort,
        desc,
        after,
        limit,
        heap,
        seen: Ghost(Seq::empty()),
    };
    ListStep::ReadDir(ListDir { so_far, dir: start_at(&cfg.keep_dir) })
}

/// How often a key passes a filter.
pub(crate) proof fn filter_counts(keys: Seq<Key>, pred: spec_fn(Key) -> bool, key: Key)
    ensures
        keys.filter(pred).to_multiset().count(key) == if pred(key) {
            keys.to_multiset().count(key)
        } else {
            0
        },
    decreases keys.len(),
{
    reveal(Seq::filter);
    if keys.len() > 0 {
        let rest = keys.drop_last();
        filter_counts(rest, pred, key);
        assert(rest.push(keys.last()) =~= keys);
        rest.to_multiset_ensures();
        rest.filter(pred).to_multiset_ensures();
    } else {
        assert(keys.filter(pred) =~= keys);
        keys.to_multiset_ensures();
        if keys.to_multiset().count(key) > 0 {
            assert(keys.contains(key));
        }
    }
}

/// Filtering keys in any order leaves the same ones.
proof fn filter_keeps_same(a: Seq<Key>, b: Seq<Key>, pred: spec_fn(Key) -> bool)
    requires
        a.to_multiset() == b.to_multiset(),
    ensures
        a.filter(pred).to_multiset() == b.filter(pred).to_multiset(),
{
    assert forall|k: Key|
        a.filter(pred).to_multiset().count(k) == b.filter(pred).to_multiset().count(k) by {
        filter_counts(a, pred, k);
        filter_counts(b, pred, k);
    }
    assert(a.filter(pred).to_multiset() =~= b.filter(pred).to_multiset());
}

/// A filter that passes a tail and nothing before it leaves the tail.
proof fn filter_tail(keys: Seq<Key>, pred: spec_fn(Key) -> bool, from: int)
    requires
        0 <= from <= keys.len(),
        forall|i: int| 0 <= i < keys.len() ==> (#[trigger] pred(keys[i]) <==> from <= i),
    ensures
        keys.filter(pred) == keys.skip(from),
    decreases keys.len(),
{
    reveal(Seq::filter);
    if keys.len() > 0 {
        let rest = keys.drop_last();
        if from == keys.len() {
            assert forall|i: int| 0 <= i < rest.len() implies (#[trigger] pred(rest[i]) <==> from
                - 1 <= i) by {
                assert(pred(keys[i]) <==> from <= i);
            }
            filter_tail(rest, pred, from - 1);
            assert(!pred(keys.last())) by {
                assert(pred(keys[keys.len() - 1]) <==> from <= keys.len() - 1);
            }
            assert(rest.skip(from - 1) =~= keys.skip(from));
        } else {
            assert forall|i: int| 0 <= i < rest.len() implies (#[trigger] pred(rest[i]) <==> from
                <= i) by {
                assert(pred(keys[i]) <==> from <= i);
            }
            filter_tail(rest, pred, from);
            assert(pred(keys[keys.len() - 1]) <==> from <= keys.len() - 1);
            assert(rest.skip(from).push(keys.last()) =~= keys.skip(from));
        }
    } else {
        assert(keys.skip(from) =~= keys.filter(pred));
    }
}

/// Different keys in order are strictly in order.
pub(crate) proof fn distinct_keys_are_strict(desc: bool, keys: Seq<Key>)
    requires
        keys.no_duplicates(),
    ensures
        forall|i: int, j: int|
            0 <= i < j < keys.len() ==> listed_before(
                desc,
                #[trigger] ordered(desc, keys)[i],
                #[trigger] ordered(desc, keys)[j],
            ),
{
    let all = ordered(desc, keys);
    ordering(desc, keys);
    keys.lemma_multiset_has_no_duplicates();
    assert forall|x: Key| #[trigger] all.to_multiset().contains(x) implies all.to_multiset().count(
        x,
    ) == 1 by {
        assert(keys.to_multiset().contains(x));
    }
    all.lemma_multiset_has_no_duplicates_conv();
    assert forall|i: int, j: int| 0 <= i < j < keys.len() implies listed_before(
        desc,
        #[trigger] all[i],
        #[trigger] all[j],
    ) by {
        assert(listing_order(desc)(all[i], all[j]));
        listing_is_total(desc, all[i], all[j]);
    }
}

/// The first page is the start of the listing, and all of it if it is large
/// enough.
pub proof fn first_page_starts_the_listing(desc: bool, keys: Seq<Key>, limit: nat)
    ensures
        page(desc, None, limit, keys) == at_most(limit, ordered(desc, keys)),
        limit >= keys.len() ==> page(desc, None, limit, keys) == ordered(desc, keys),
{
    ordering(desc, keys);
    let every = |k: Key| is_listed(desc, None, k);
    filter_tail(keys, every, 0);
    assert(keys.skip(0) =~= keys);
}

/// The first page is the start of the listing, and the page behind any entry is
/// what follows that entry: pages follow each other with nothing left out and
/// nothing shown twice.
pub proof fn pages_follow_each_other(desc: bool, keys: Seq<Key>, at: int, limit: nat)
    requires
        keys.no_duplicates(),
        0 <= at < keys.len(),
    ensures
        page(desc, None, limit, keys) == at_most(limit, ordered(desc, keys)),
        page(desc, Some(ordered(desc, keys)[at]), limit, keys) == at_most(
            limit,
            ordered(desc, keys).skip(at + 1),
        ),
{
    let all = ordered(desc, keys);
    ordering(desc, keys);
    first_page_starts_the_listing(desc, keys, limit);
    let cursor = Some(all[at]);
    let pred = |k: Key| is_listed(desc, cursor, k);
    distinct_keys_are_strict(desc, keys);
    assert forall|i: int| 0 <= i < all.len() implies (#[trigger] pred(all[i]) <==> at + 1 <= i) by {
        listing_is_total(desc, all[at], all[i]);
        if i > at {
            assert(listed_before(desc, all[at], all[i]));
        } else if i < at {
            assert(listed_before(desc, all[i], all[at]));
        }
    }
    filter_tail(all, pred, at + 1);
    filter_keeps_same(keys, all, pred);
    let rest = all.skip(at + 1);
    assert forall|i: int, j: int| 0 <= i < j < rest.len() implies #[trigger] listing_order(desc)(
        rest[i],
        rest[j],
    ) by {
        assert(listing_order(desc)(all[at + 1 + i], all[at + 1 + j]));
    }
    ordering_is_unique(desc, keys.filter(pred), rest);
}

/// The cursor for the page after the first `i`: the last entry before it.
pub open spec fn cursor_before(pages: Seq<Seq<Key>>, i: int) -> Option<Key> {
    if i == 0 {
        None
    } else {
        Some(pages[i - 1].last())
    }
}

/// Whether `pages` are the first pages of a listing, none of them empty, each
/// asked for with the last entry of the page before as the cursor.
pub open spec fn are_first_pages(
    desc: bool,
    limit: nat,
    keys: Seq<Key>,
    pages: Seq<Seq<Key>>,
) -> bool {
    forall|i: int|
        0 <= i < pages.len() ==> (#[trigger] pages[i]).len() > 0 && pages[i] == page(
            desc,
            cursor_before(pages, i),
            limit,
            keys,
        )
}

/// Whether `pages` are all the pages of a listing: the page after them is empty.
pub open spec fn are_pages(
    desc: bool,
    limit: nat,
    keys: Seq<Key>,
    pages: Seq<Seq<Key>>,
) -> bool {
    &&& are_first_pages(desc, limit, keys, pages)
    &&& page(desc, cursor_before(pages, pages.len() as int), limit, keys).len() == 0
}

/// The cursor behind the first `n` of a listing.
spec fn cursor_at(desc: bool, keys: Seq<Key>, n: int) -> Option<Key> {
    if n == 0 {
        None
    } else {
        Some(ordered(desc, keys)[n - 1])
    }
}

/// The page behind the first `n` of a listing is what follows them.
proof fn page_behind(desc: bool, limit: nat, keys: Seq<Key>, n: int)
    requires
        keys.no_duplicates(),
        0 <= n <= keys.len(),
    ensures
        ordered(desc, keys).len() == keys.len(),
        page(desc, cursor_at(desc, keys, n), limit, keys) == at_most(
            limit,
            ordered(desc, keys).skip(n),
        ),
{
    ordering(desc, keys);
    if n == 0 {
        first_page_starts_the_listing(desc, keys, limit);
        assert(ordered(desc, keys).skip(0) =~= ordered(desc, keys));
    } else {
        pages_follow_each_other(desc, keys, n - 1, limit);
    }
}

/// A start of a listing and the page behind it are a longer start, and the page is
/// full unless the listing ends with it.
proof fn start_grows(all: Seq<Key>, before: Seq<Key>, last: Seq<Key>, limit: nat)
    requires
        before.len() <= all.len(),
        before == all.take(before.len() as int),
        last == at_most(limit, all.skip(before.len() as int)),
        last.len() > 0,
    ensures
        (before + last).len() <= all.len(),
        before + last == all.take((before + last).len() as int),
        last.last() == all[(before + last).len() - 1],
        (before + last).len() < all.len() ==> last.len() == limit,
{
    assert(before + last =~= all.take((before + last).len() as int));
}

/// Fewer first pages are first pages too.
proof fn fewer_first_pages(
    desc: bool,
    limit: nat,
    keys: Seq<Key>,
    pages: Seq<Seq<Key>>,
    n: int,
)
    requires
        are_first_pages(desc, limit, keys, pages),
        0 <= n <= pages.len(),
    ensures
        are_first_pages(desc, limit, keys, pages.take(n)),
        cursor_before(pages.take(n), n) == cursor_before(pages, n),
{
    let front = pages.take(n);
    assert forall|i: int| 0 <= i < front.len() implies (#[trigger] front[i]).len() > 0 && front[i]
        == page(desc, cursor_before(front, i), limit, keys) by {
        assert(front[i] == pages[i]);
        assert(cursor_before(front, i) == cursor_before(pages, i));
    }
}

/// The first pages are the start of the listing, and the last of them is full
/// unless the listing ends with it.
proof fn first_pages_start_the_listing(
    desc: bool,
    limit: nat,
    keys: Seq<Key>,
    pages: Seq<Seq<Key>>,
)
    requires
        keys.no_duplicates(),
        are_first_pages(desc, limit, keys, pages),
    ensures
        ({
            let done = pages.flatten_alt();
            let all = ordered(desc, keys);
            &&& done.len() <= all.len()
            &&& all.len() == keys.len()
            &&& done == all.take(done.len() as int)
            &&& cursor_before(pages, pages.len() as int) == cursor_at(
                desc,
                keys,
                done.len() as int,
            )
            &&& done.len() < all.len() && pages.len() > 0 ==> pages.last().len() == limit
        }),
    decreases pages.len(),
{
    let all = ordered(desc, keys);
    if pages.len() == 0 {
        page_behind(desc, limit, keys, 0);
        assert(pages.flatten_alt() =~= all.take(0));
    } else {
        let rest = pages.drop_last();
        let before = rest.flatten_alt();
        let last = pages.last();
        assert(rest =~= pages.take(pages.len() - 1));
        fewer_first_pages(desc, limit, keys, pages, pages.len() - 1);
        first_pages_start_the_listing(desc, limit, keys, rest);
        page_behind(desc, limit, keys, before.len() as int);
        assert(pages[pages.len() - 1] == last);
        start_grows(all, before, last, limit);
    }
}

/// The page after the first pages is what follows them in the listing.
proof fn next_page_follows(desc: bool, limit: nat, keys: Seq<Key>, pages: Seq<Seq<Key>>)
    requires
        keys.no_duplicates(),
        are_first_pages(desc, limit, keys, pages),
    ensures
        pages.flatten_alt().len() <= keys.len(),
        page(desc, cursor_before(pages, pages.len() as int), limit, keys) == at_most(
            limit,
            ordered(desc, keys).skip(pages.flatten_alt().len() as int),
        ),
{
    first_pages_start_the_listing(desc, limit, keys, pages);
    page_behind(desc, limit, keys, pages.flatten_alt().len() as int);
}

/// A page that another one follows is full.
proof fn page_before_another_is_full(
    desc: bool,
    limit: nat,
    keys: Seq<Key>,
    pages: Seq<Seq<Key>>,
    i: int,
)
    requires
        keys.no_duplicates(),
        are_first_pages(desc, limit, keys, pages),
        0 <= i < pages.len() - 1,
    ensures
        pages[i].len() == limit,
{
    let front = pages.take(i + 1);
    fewer_first_pages(desc, limit, keys, pages, i + 1);
    first_pages_start_the_listing(desc, limit, keys, front);
    next_page_follows(desc, limit, keys, front);
    assert(pages[i + 1].len() > 0);
    assert(front.last() == pages[i]);
}

/// The remaining pages after some first ones.
proof fn pages_go_on(
    desc: bool,
    limit: nat,
    keys: Seq<Key>,
    pages: Seq<Seq<Key>>,
) -> (whole: Seq<Seq<Key>>)
    requires
        keys.no_duplicates(),
        limit >= 1,
        are_first_pages(desc, limit, keys, pages),
    ensures
        are_pages(desc, limit, keys, whole),
    decreases keys.len() - pages.flatten_alt().len(),
{
    next_page_follows(desc, limit, keys, pages);
    let next = page(desc, cursor_before(pages, pages.len() as int), limit, keys);
    if next.len() == 0 {
        pages
    } else {
        let more = pages.push(next);
        assert forall|i: int| 0 <= i < more.len() implies (#[trigger] more[i]).len() > 0 && more[i]
            == page(desc, cursor_before(more, i), limit, keys) by {
            if i < pages.len() {
                assert(more[i] == pages[i]);
            }
            assert(cursor_before(more, i) == cursor_before(pages, i));
        }
        assert(more.drop_last() =~= pages);
        next_page_follows(desc, limit, keys, more);
        pages_go_on(desc, limit, keys, more)
    }
}

/// Pages that are asked for one after another, each with the last entry of the
/// page before as the cursor, come to an end, and joined they are the whole
/// listing, with nothing skipped and nothing repeated. Every page but the last
/// has `limit` entries.
pub proof fn pages_make_the_listing(desc: bool, limit: nat, keys: Seq<Key>) -> (pages: Seq<
    Seq<Key>,
>)
    requires
        keys.no_duplicates(),
        limit >= 1,
    ensures
        are_pages(desc, limit, keys, pages),
        forall|all: Seq<Seq<Key>>| #[trigger]
            are_pages(desc, limit, keys, all) ==> all.flatten() == ordered(desc, keys) && forall|
                i: int,
            |
                0 <= i < all.len() - 1 ==> (#[trigger] all[i]).len() == limit,
{
    assert forall|all: Seq<Seq<Key>>| #[trigger] are_pages(desc, limit, keys, all) implies all.flatten()
        == ordered(desc, keys) && forall|i: int|
        0 <= i < all.len() - 1 ==> (#[trigger] all[i]).len() == limit by {
        first_pages_start_the_listing(desc, limit, keys, all);
        next_page_follows(desc, limit, keys, all);
        all.lemma_flatten_and_flatten_alt_are_equivalent();
        assert(all.flatten() =~= ordered(desc, keys));
        assert forall|i: int| 0 <= i < all.len() - 1 implies (#[trigger] all[i]).len() == limit by {
            page_before_another_is_full(desc, limit, keys, all, i);
        }
    }
    pages_go_on(desc, limit, keys, Seq::empty())
}

/// A page has no more entries than were asked for, all of them behind the
/// cursor and in order. A key behind the cursor that is not on the page is kept
/// out by a full page, with nothing on it that the key is listed before.
pub proof fn page_is_first(desc: bool, after: Option<Key>, limit: nat, keys: Seq<Key>, key: Key)
    requires
        keys.contains(key),
        is_listed(desc, after, key),
    ensures
        ({
            let p = page(desc, after, limit, keys);
            &&& p.len() <= limit
            &&& forall|i: int|
                0 <= i < p.len() ==> keys.contains(#[trigger] p[i]) && is_listed(desc, after, p[i])
            &&& forall|i: int, j: int|
                0 <= i < j < p.len() ==> !listed_before(desc, #[trigger] p[j], #[trigger] p[i])
            &&& !p.contains(key) ==> p.len() == limit && forall|i: int|
                0 <= i < p.len() ==> !listed_before(desc, key, #[trigger] p[i])
        }),
{
    let pred = |k: Key| is_listed(desc, after, k);
    let listed = keys.filter(pred);
    let all = ordered(desc, listed);
    let p = page(desc, after, limit, keys);
    ordering(desc, listed);
    listed.to_multiset_ensures();
    all.to_multiset_ensures();
    keys.to_multiset_ensures();
    assert forall|i: int| 0 <= i < p.len() implies keys.contains(#[trigger] p[i]) && is_listed(
        desc,
        after,
        p[i],
    ) by {
        assert(p[i] == all[i]);
        assert(all.contains(all[i]));
        filter_counts(keys, pred, all[i]);
        assert(all.to_multiset().count(all[i]) > 0);
        assert(keys.to_multiset().contains(all[i]));
    }
    assert forall|i: int, j: int| 0 <= i < j < p.len() implies !listed_before(
        desc,
        #[trigger] p[j],
        #[trigger] p[i],
    ) by {
        assert(listing_order(desc)(all[i], all[j]));
    }
    if !p.contains(key) {
        filter_counts(keys, pred, key);
        assert(keys.to_multiset().contains(key));
        assert(all.to_multiset().contains(key));
        assert(all.contains(key));
        let at = choose|at: int| 0 <= at < all.len() && all[at] == key;
        if at < p.len() {
            assert(p[at] == key);
        }
        assert forall|i: int| 0 <= i < p.len() implies !listed_before(
            desc,
            key,
            #[trigger] p[i],
        ) by {
            assert(listing_order(desc)(all[i], all[at]));
        }
    }
}

/// A listing with the largest first is the reverse of one with the smallest
/// first.
pub proof fn desc_is_reverse_of_asc(keys: Seq<Key>)
    ensures
        ordered(true, keys) == ordered(false, keys).reverse(),
{
    let asc = ordered(false, keys);
    ordering(false, keys);
    asc.lemma_reverse_to_multiset();
    let back = asc.reverse();
    assert forall|i: int, j: int| 0 <= i < j < back.len() implies #[trigger] listing_order(true)(
        back[i],
        back[j],
    ) by {
        assert(listing_order(false)(asc[asc.len() - 1 - j], asc[asc.len() - 1 - i]));
    }
    ordering_is_unique(true, keys, back);
}

} // verus!
