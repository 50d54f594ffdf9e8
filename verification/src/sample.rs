//! Random samples of the kept images, for a slideshow.
//!
//! A sample is drawn in a single pass with a reservoir of the sample's size:
//! once the reservoir is full, a further image takes the place of a random one
//! of those seen so far, if that one is in the reservoir. The random numbers
//! come from a small generator that is started with a seed, so the same seed
//! draws the same sample.

use crate::config::Config;
use crate::gallery::{describe, is_describing, keep_walk, DescribeStep};
use crate::text::views;
use crate::walk::{
    additions_bounded, entry_views, images_ahead, images_ahead_is, keep_rules, listing_len,
    pending_after, rels, root_item, start_at, Item, ItemView, Listing, Rules, Walk,
};
use vstd::prelude::*;

verus! {

/// What the generator's state grows by with each number.
pub const STEP: u64 = 0x9E37_79B9_7F4A_7C15;

/// The multipliers that mix the state into a number.
pub const MIX_FIRST: u64 = 0xBF58_476D_1CE4_E5B9;

pub const MIX_SECOND: u64 = 0x94D0_49BB_1331_11EB;

/// The state after a number was drawn.
pub open spec fn advanced(state: u64) -> u64 {
    state.wrapping_add(STEP)
}

/// The number that a state is mixed into.
pub open spec fn mixed(state: u64) -> u64 {
    let a = (state ^ (state >> 30)).wrapping_mul(MIX_FIRST);
    let b = (a ^ (a >> 27)).wrapping_mul(MIX_SECOND);
    b ^ (b >> 31)
}

/// A generator of pseudo-random numbers. It is not for cryptography.
pub struct SplitMix64 {
    state: u64,
}

impl SplitMix64 {
    pub closed spec fn state(self) -> u64 {
        self.state
    }

    /// A generator started with `seed`.
    pub fn new(seed: u64) -> (r: SplitMix64)
        ensures
            r.state() == seed,
    {
        SplitMix64 { state: seed }
    }

    /// The next number.
    pub fn next_u64(&mut self) -> (r: u64)
        ensures
            final(self).state() == advanced(old(self).state()),
            r == mixed(final(self).state()),
    {
        self.state = self.state.wrapping_add(STEP);
        let state = self.state;
        let a: u64 = (state ^ (state >> 30)).wrapping_mul(MIX_FIRST);
        let b: u64 = (a ^ (a >> 27)).wrapping_mul(MIX_SECOND);
        b ^ (b >> 31)
    }

    /// The next number, brought below `bound`.
    pub fn next_below(&mut self, bound: u64) -> (r: u64)
        requires
            bound > 0,
        ensures
            final(self).state() == advanced(old(self).state()),
            r == mixed(final(self).state()) % bound,
            r < bound,
    {
        self.next_u64() % bound
    }
}

/// A reservoir, and the state of the generator.
pub struct Reservoir {
    pub kept: Seq<Seq<char>>,
    pub state: u64,
}

/// The reservoir after the images `all`: up to `n` of them.
pub open spec fn sampled(all: Seq<Seq<char>>, n: nat, seed: u64) -> Reservoir
    decreases all.len(),
{
    if all.len() == 0 || n == 0 {
        Reservoir { kept: Seq::empty(), state: seed }
    } else {
        let before = sampled(all.drop_last(), n, seed);
        if before.kept.len() < n {
            Reservoir { kept: before.kept.push(all.last()), state: before.state }
        } else {
            let state = advanced(before.state);
            let slot = (mixed(state) % (all.len() as u64)) as usize;
            if slot < n {
                Reservoir { kept: before.kept.update(slot as int, all.last()), state }
            } else {
                Reservoir { kept: before.kept, state }
            }
        }
    }
}

/// What a sample has come to.
struct Drawn<'a> {
    cfg: &'a Config,
    walk: Walk<'a>,
    n: usize,
    rng: SplitMix64,
    kept: Vec<String>,
    count: u64,
    seed: Ghost<u64>,
    seen: Ghost<Seq<Seq<char>>>,
}

impl<'a> Drawn<'a> {
    #[verifier::type_invariant]
    spec fn kept_is_sample(self) -> bool {
        let sample = sampled(self.seen@, self.n as nat, self.seed@);
        &&& views(self.kept@) == sample.kept
        &&& self.rng.state() == sample.state
        &&& self.n > 0 ==> self.count == self.seen@.len()
    }
}

/// A sample, waiting for a directory to be read.
pub struct SampleDir<'a> {
    so_far: Drawn<'a>,
    dir: Item,
}

/// What a sample needs.
pub enum SampleStep<'a> {
    /// Read a directory.
    ReadDir(SampleDir<'a>),
    /// The sample is settled; what its entries still need.
    Describe(DescribeStep),
    /// Nothing more: a directory could not be read.
    Failed,
}

impl<'a> SampleDir<'a> {
    pub closed spec fn cfg(self) -> Config {
        *self.so_far.cfg
    }

    pub closed spec fn rules(self) -> Rules {
        self.so_far.walk.rules()
    }

    /// How large the sample is to be.
    pub closed spec fn size(self) -> nat {
        self.so_far.n as nat
    }

    /// What the generator was started with.
    pub closed spec fn seed(self) -> u64 {
        self.so_far.seed@
    }

    /// The directory to read.
    pub closed spec fn reading(self) -> ItemView {
        self.dir@
    }

    /// What comes after that directory.
    pub closed spec fn pending(self) -> Seq<ItemView> {
        self.so_far.walk.pending()
    }

    /// The images that the sample has come to.
    pub closed spec fn seen(self) -> Seq<Seq<char>> {
        self.so_far.seen@
    }

    /// How many images are counted; none are for an empty sample.
    pub closed spec fn counted(self) -> nat {
        self.so_far.count as nat
    }

    /// The directory to read.
    pub fn dir(&self) -> (r: &Vec<u8>)
        ensures
            r@ == self.reading().abs,
    {
        &self.dir.abs
    }

    /// Whether the count stays in range if everything that is pending and
    /// everything in the listing is an image.
    pub fn fits(&self, listing: &Listing) -> (r: bool)
        ensures
            r == (self.counted() + self.pending().len() + listing_len(*listing) <= u64::MAX),
    {
        let more: usize = match listing {
            Listing::Entries(v) => v.len(),
            _ => 0,
        };
        match self.so_far.count.checked_add(self.so_far.walk.len() as u64) {
            Some(total) => total.checked_add(more as u64).is_some(),
            None => false,
        }
    }

    /// Go on, knowing what the directory holds: take the images up to the next
    /// directory into account. A directory that is gone by now holds nothing.
    pub fn listed(self, listing: Listing) -> (r: SampleStep<'a>)
        requires
            self.counted() + self.pending().len() + listing_len(listing) <= u64::MAX,
        ensures
            ({
                let p = pending_after(self.rules(), self.reading(), self.pending(), listing);
                let k = images_ahead(p) as int;
                let seen = self.seen() + rels(p.take(k));
                match r {
                    SampleStep::Failed => listing is Failed,
                    SampleStep::Describe(step) => listing !is Failed && k == p.len()
                        && is_describing(
                        step,
                        self.cfg().keep_dir@,
                        sampled(seen, self.size(), self.seed()).kept,
                    ),
                    SampleStep::ReadDir(next) => {
                        &&& listing !is Failed
                        &&& k < p.len()
                        &&& next.cfg() == self.cfg()
                        &&& next.rules() == self.rules()
                        &&& next.size() == self.size()
                        &&& next.seed() == self.seed()
                        &&& next.reading() == p[k]
                        &&& next.pending() == p.skip(k + 1)
                        &&& next.seen() == seen
                        &&& next.counted() == self.counted() + if self.size() == 0 {
                            0
                        } else {
                            k
                        }
                    },
                }
            }),
    {
        let SampleDir { so_far, dir } = self;
        proof {
            use_type_invariant(&so_far);
        }
        let ghost p = pending_after(self.rules(), self.reading(), self.pending(), listing);
        let ghost before = self.seen();
        let ghost rules = self.rules();
        let ghost counted = self.counted() as int;
        proof {
            if listing is Entries {
                additions_bounded(rules, self.reading(), entry_views(listing->Entries_0@));
            }
        }
        let Drawn { cfg, walk, n, rng, kept, count, seed, seen } = so_far;
        let mut walk = walk;
        let mut rng = rng;
        let mut kept = kept;
        let mut count: u64 = count;
        let mut seen = seen;
        match listing {
            Listing::Failed => {
                return SampleStep::Failed;
            },
            Listing::NotFound => {},
            Listing::Entries(entries) => {
                walk.add(&dir, entries);
            },
        }
        let ghost mut k: int = 0;
        assert(p.skip(0) =~= p);
        assert(before + rels(p.take(0)) =~= before);
        loop
            invariant
                0 <= k <= p.len(),
                *cfg == self.cfg(),
                n == self.size(),
                seed@ == self.seed(),
                before == self.seen(),
                rules == self.rules(),
                counted == self.counted(),
                listing !is Failed,
                p == pending_after(self.rules(), self.reading(), self.pending(), listing),
                counted + p.len() <= u64::MAX,
                walk.rules() == rules,
                walk.pending() == p.skip(k),
                forall|i: int| 0 <= i < k ==> !(#[trigger] p[i]).dir,
                seen@ == before + rels(p.take(k)),
                views(kept@) == sampled(seen@, n as nat, seed@).kept,
                rng.state() == sampled(seen@, n as nat, seed@).state,
                n > 0 ==> count == seen@.len(),
                count == counted + if n == 0 {
                    0
                } else {
                    k
                },
            decreases walk.pending().len(),
        {
            match walk.take() {
                None => {
                    proof {
                        images_ahead_is(p, k as nat);
                    }
                    return SampleStep::Describe(describe(&cfg.keep_dir, kept));
                },
                Some(item) => {
                    assert(item@ == p[k]);
                    assert(p.skip(k).drop_first() =~= p.skip(k + 1));
                    if item.dir {
                        proof {
                            images_ahead_is(p, k as nat);
                        }
                        let so_far = Drawn { cfg, walk, n, rng, kept, count, seed, seen };
                        return SampleStep::ReadDir(SampleDir { so_far, dir: item });
                    }
                    let ghost rel = item.rel@;
                    let ghost had = seen@;
                    let ghost kept_before = views(kept@);
                    proof {
                        seen@ = seen@.push(rel);
                        assert(seen@ =~= before + rels(p.take(k + 1)));
                        assert(seen@.drop_last() =~= had);
                        k = k + 1;
                    }
                    if n > 0 {
                        if kept.len() < n {
                            kept.push(item.rel);
                            assert(views(kept@) =~= kept_before.push(rel));
                        } else {
                            let slot = rng.next_below(count + 1) as usize;
                            if slot < n {
                                kept.set(slot, item.rel);
                                assert(views(kept@) =~= kept_before.update(slot as int, rel));
                            }
                        }
                        count = count + 1;
                    }
                },
            }
        }
    }
}

/// Draw a random sample of up to `n` kept images. Starts with the keep
/// directory.
pub fn sample_keep<'a>(cfg: &'a Config, n: usize, seed: u64) -> (r: SampleStep<'a>)
    ensures
        r matches SampleStep::ReadDir(s) && {
            &&& s.cfg() == *cfg
            &&& s.rules() == keep_rules(*cfg)
            &&& s.size() == n
            &&& s.seed() == seed
            &&& s.reading() == root_item(cfg.keep_dir@)
            &&& s.pending() == Seq::<ItemView>::empty()
            &&& s.seen() == Seq::<Seq<char>>::empty()
            &&& s.counted() == 0
        },
{
    let kept: Vec<String> = Vec::new();
    assert(views(kept@) =~= Seq::<Seq<char>>::empty());
    let so_far = Drawn {
        cfg,
        walk: keep_walk(cfg),
        n,
        rng: SplitMix64::new(seed),
        kept,
        count: 0,
        seed: Ghost(seed),
        seen: Ghost(Seq::empty()),
    };
    SampleStep::ReadDir(SampleDir { so_far, dir: start_at(&cfg.keep_dir) })
}

/// A sample has as many images as were asked for, or all of them if there are
/// fewer.
pub proof fn sample_has_its_size(all: Seq<Seq<char>>, n: nat, seed: u64)
    ensures
        sampled(all, n, seed).kept.len() == if n < all.len() {
            n
        } else {
            all.len()
        },
    decreases all.len(),
{
    if all.len() > 0 {
        sample_has_its_size(all.drop_last(), n, seed);
    }
}

/// A sample that is not smaller than the gallery is the whole gallery.
pub proof fn large_sample_is_everything(all: Seq<Seq<char>>, n: nat, seed: u64)
    requires
        n >= all.len(),
    ensures
        sampled(all, n, seed).kept == all,
    decreases all.len(),
{
    if all.len() > 0 {
        large_sample_is_everything(all.drop_last(), n, seed);
        assert(all.drop_last().push(all.last()) =~= all);
    } else {
        assert(sampled(all, n, seed).kept =~= all);
    }
}

/// Whether `places` are different places in `all` where the sample was found.
pub open spec fn is_drawn(all: Seq<Seq<char>>, sample: Seq<Seq<char>>, places: Seq<int>) -> bool {
    &&& places.len() == sample.len()
    &&& places.no_duplicates()
    &&& forall|i: int|
        0 <= i < places.len() ==> 0 <= #[trigger] places[i] < all.len() && sample[i]
            == all[places[i]]
}

/// A sample is drawn from different places in the gallery.
pub proof fn sample_is_drawn(all: Seq<Seq<char>>, n: nat, seed: u64) -> (places: Seq<int>)
    ensures
        is_drawn(all, sampled(all, n, seed).kept, places),
    decreases all.len(),
{
    if all.len() == 0 || n == 0 {
        Seq::empty()
    } else {
        let rest = all.drop_last();
        let before = sampled(rest, n, seed);
        let places = sample_is_drawn(rest, n, seed);
        let last = all.len() - 1;
        sample_has_its_size(rest, n, seed);
        if before.kept.len() < n {
            places.push(last)
        } else {
            let slot = (mixed(advanced(before.state)) % (all.len() as u64)) as usize;
            if slot < n {
                places.update(slot as int, last)
            } else {
                places
            }
        }
    }
}

/// A sample of a gallery without repetition repeats no image, and holds images
/// of the gallery only.
pub proof fn sample_is_a_subset(all: Seq<Seq<char>>, n: nat, seed: u64)
    requires
        all.no_duplicates(),
    ensures
        sampled(all, n, seed).kept.no_duplicates(),
        forall|i: int|
            0 <= i < sampled(all, n, seed).kept.len() ==> all.contains(
                #[trigger] sampled(all, n, seed).kept[i],
            ),
{
    let places = sample_is_drawn(all, n, seed);
    let kept = sampled(all, n, seed).kept;
    assert forall|i: int, j: int| 0 <= i < kept.len() && 0 <= j < kept.len() && i != j implies kept[i]
        != kept[j] by {
        assert(places[i] != places[j]);
    }
    assert forall|i: int| 0 <= i < kept.len() implies all.contains(#[trigger] kept[i]) by {
        assert(kept[i] == all[places[i]]);
    }
}

} // verus!
