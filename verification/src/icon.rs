//! The shared icon cache: a map from normalized path to load state plus the
//! generation counter that fences superseded directory-open requests, and
//! the probabilistic age-based eviction sweep that bounds its memory.
//!
//! `lookupOrReserve` gives the caller that sees an absent key the exclusive
//! right to `complete` it (single-flight); `nextGeneration` / `isCurrent`
//! issue and check the fence.
use vstd::prelude::*;
use vstd::hash_map::StringHashMap;
use std::sync::Arc;
use crate::rgba_img::{RgbImg, cloneArc};
use crate::strings::strEq;

verus! {

/// Age (milliseconds) at or below which no entry is evicted.
pub const MIN_AGE_MS: u64 = 5000;

/// Age (milliseconds) from which eviction is certain.
pub const MAX_AGE_MS: u64 = 120000;

/// Fourth power of the ramp span `MAX_AGE_MS - MIN_AGE_MS`.
pub const RAMP_SPAN_4: u128 = 115000u128 * 115000u128 * 115000u128 * 115000u128;

/// The age of a resolved entry, saturating at zero when the clock stepped
/// backwards.
pub open spec fn ageOf(now: u64, lastAccess: u64) -> int {
    if now >= lastAccess {
        now - lastAccess
    } else {
        0
    }
}

/// Ramp numerator: how far past the minimum age the entry is, capped at the
/// span.
pub open spec fn rampNum(age: int) -> int {
    if age <= MIN_AGE_MS {
        0
    } else if age >= MAX_AGE_MS {
        MAX_AGE_MS - MIN_AGE_MS
    } else {
        age - MIN_AGE_MS
    }
}

/// Whether a sweep evicts a resolved entry of this age on this draw. With
/// `draw` uniform over the 32-bit range, this holds with probability
/// `min(1, (age - minAge) / (maxAge - minAge))` to the fourth power: zero at
/// or below the minimum age, certainty from the maximum age on.
pub open spec fn spec_shouldEvict(age: int, draw: u32) -> bool {
    (draw as int) * RAMP_SPAN_4 < rampNum(age) * rampNum(age) * rampNum(age) * rampNum(age)
        * 0x1_0000_0000
}

/// The quartic eviction decision, in exact integer arithmetic.
pub fn shouldEvict(age: u64, draw: u32) -> (r: bool)
    ensures
        r == spec_shouldEvict(age as int, draw),
{
    if age <= MIN_AGE_MS {
        return false;
    }
    let num: u128 = if age >= MAX_AGE_MS {
        (MAX_AGE_MS - MIN_AGE_MS) as u128
    } else {
        (age - MIN_AGE_MS) as u128
    };
    proof {
        assert(num <= 115000);
        assert(num * num * num * num <= 115000u128 * 115000u128 * 115000u128 * 115000u128)
            by (nonlinear_arith)
            requires
                0 <= num <= 115000u128,
        ;
        assert((draw as u128) * RAMP_SPAN_4 <= 0xffff_ffffu128 * RAMP_SPAN_4)
            by (nonlinear_arith)
            requires
                draw as u128 <= 0xffff_ffffu128,
        ;
        assert(num * num <= 115000u128 * 115000u128) by (nonlinear_arith)
            requires
                0 <= num <= 115000u128,
        ;
        assert(num * num * num <= 115000u128 * 115000u128 * 115000u128) by (nonlinear_arith)
            requires
                0 <= num <= 115000u128,
        ;
    }
    let num4: u128 = num * num * num * num;
    let lhs: u128 = (draw as u128) * RAMP_SPAN_4;
    let rhs: u128 = num4 * 0x1_0000_0000u128;
    lhs < rhs
}

/// State of one cache entry: reserved and decoding, or resolved at the given
/// time (milliseconds) to the given shared image.
pub enum LoadStage {
    Loading,
    Loaded(u64, Arc<RgbImg>),
}

/// Outcome of a cache lookup, as the load coordinator sees it.
pub enum LookupResult {
    /// The path is resolved; its access time was refreshed.
    AlreadyLoaded(Arc<RgbImg>),
    /// Another request reserved the path; its completion will be broadcast.
    AlreadyLoading,
    /// The caller now owns the sole right to complete this path.
    Reserved,
}

/// The shared icon cache with its placeholder images and the generation
/// counter, guarded by one lock in the embedding application.
pub struct GlobalIcons {
    /// Placeholder for plain files, missing paths and failed decodes.
    pub default: Arc<RgbImg>,
    /// Placeholder for directories.
    pub folder: Arc<RgbImg>,
    iconCache: StringHashMap<LoadStage>,
    cacheKeys: Vec<String>,
    generation: u64,
}

impl GlobalIcons {
    /// The cache contents: normalized path to entry state.
    pub closed spec fn entries(&self) -> Map<Seq<char>, LoadStage> {
        self.iconCache@
    }

    /// The keys now present, in insertion order.
    pub closed spec fn keyOrder(&self) -> Seq<Seq<char>> {
        self.cacheKeys@.map_values(|s: String| s@)
    }

    /// The current value of the generation counter.
    pub closed spec fn spec_generation(&self) -> u64 {
        self.generation
    }

    /// The shared placeholder for plain files and failed decodes.
    pub closed spec fn spec_default(&self) -> Arc<RgbImg> {
        self.default
    }

    /// The shared placeholder for directories.
    pub closed spec fn spec_folder(&self) -> Arc<RgbImg> {
        self.folder
    }

    /// The key list carries no duplicates and lists exactly the cached keys.
    pub open spec fn wf(&self) -> bool {
        &&& (forall|i: int, j: int|
            0 <= i < j < self.keyOrder().len() ==> self.keyOrder()[i] != self.keyOrder()[j])
        &&& self.entries().dom() == self.keyOrder().to_set()
    }

    /// A fresh cache: no entries, generation zero.
    pub fn new(default: Arc<RgbImg>, folder: Arc<RgbImg>) -> (r: Self)
        ensures
            r.wf(),
            r.entries() == Map::<Seq<char>, LoadStage>::empty(),
            r.keyOrder() == Seq::<Seq<char>>::empty(),
            r.spec_generation() == 0,
            r.spec_default() == default,
            r.spec_folder() == folder,
    {
        let r = Self {
            default,
            folder,
            iconCache: StringHashMap::new(),
            cacheKeys: Vec::new(),
            generation: 0,
        };
        proof {
            assert(r.keyOrder() =~= Seq::<Seq<char>>::empty());
            assert(r.entries().dom() =~= r.keyOrder().to_set());
        }
        r
    }

    pub fn containsKey(&self, path: &str) -> (r: bool)
        ensures
            r == self.entries().contains_key(path@),
    {
        self.iconCache.contains_key(path)
    }

    /// Number of cached entries.
    pub fn cachedCount(&self) -> (r: usize)
        requires
            self.wf(),
        ensures
            r == self.keyOrder().len(),
    {
        self.cacheKeys.len()
    }

    /// Issue the next generation, fencing every earlier request.
    pub fn nextGeneration(&mut self) -> (g: u64)
        requires
            old(self).spec_generation() < u64::MAX,
        ensures
            g == old(self).spec_generation() + 1,
            final(self).spec_generation() == g,
            final(self).entries() == old(self).entries(),
            final(self).keyOrder() == old(self).keyOrder(),
            final(self).spec_default() == old(self).spec_default(),
            final(self).spec_folder() == old(self).spec_folder(),
    {
        self.generation = self.generation + 1;
        self.generation
    }

    /// The latest issued generation.
    pub fn currentGeneration(&self) -> (g: u64)
        ensures
            g == self.spec_generation(),
    {
        self.generation
    }

    /// A request is current exactly when it holds the latest generation.
    pub fn isCurrent(&self, g: u64) -> (r: bool)
        ensures
            r == (g == self.spec_generation()),
    {
        g == self.generation
    }

    /// Look a path up; reserve it when absent. Atomic under the caller's
    /// lock: an absent key is inserted as `Loading` and the caller becomes
    /// its sole completer; a `Loaded` key has its access time refreshed.
    pub fn lookupOrReserve(&mut self, path: &str, now: u64) -> (r: LookupResult)
        requires
            old(self).wf(),
        ensures
            final(self).wf(),
            final(self).spec_generation() == old(self).spec_generation(),
            final(self).spec_default() == old(self).spec_default(),
            final(self).spec_folder() == old(self).spec_folder(),
            !old(self).entries().contains_key(path@) ==> {
                &&& r is Reserved
                &&& final(self).entries() == old(self).entries().insert(
                    path@,
                    LoadStage::Loading,
                )
                &&& final(self).keyOrder() == old(self).keyOrder().push(path@)
            },
            old(self).entries().contains_key(path@) ==> final(self).keyOrder() == old(
                self,
            ).keyOrder(),
            old(self).entries().contains_key(path@) ==> match old(self).entries()[path@] {
                LoadStage::Loading => r is AlreadyLoading && final(self).entries() == old(
                    self,
                ).entries(),
                LoadStage::Loaded(t, img) => (r matches LookupResult::AlreadyLoaded(found)
                    && found == img) && final(self).entries() == old(self).entries().insert(
                    path@,
                    LoadStage::Loaded(now, img),
                ),
            },
    {
        if !self.iconCache.contains_key(path) {
            self.iconCache.insert(path.to_owned(), LoadStage::Loading);
            self.cacheKeys.push(path.to_owned());
            proof {
                assert(self.keyOrder() =~= old(self).keyOrder().push(path@));
                assert(!old(self).keyOrder().to_set().contains(path@));
                assert(!old(self).keyOrder().contains(path@));
                assert forall|k: Seq<char>| #[trigger] self.keyOrder().contains(k) implies old(
                    self,
                ).keyOrder().contains(k) || k == path@ by {
                    let i = choose|i: int|
                        0 <= i < self.keyOrder().len() && self.keyOrder()[i] == k;
                    if i < old(self).keyOrder().len() {
                        assert(old(self).keyOrder()[i] == k);
                    }
                }
                assert forall|k: Seq<char>|
                    old(self).keyOrder().contains(k) || k == path@ implies #[trigger] self
                    .keyOrder()
                    .contains(k) by {
                    if old(self).keyOrder().contains(k) {
                        let i = choose|i: int|
                            0 <= i < old(self).keyOrder().len() && old(self).keyOrder()[i] == k;
                        assert(self.keyOrder()[i] == k);
                    } else {
                        assert(self.keyOrder()[old(self).keyOrder().len() as int] == k);
                    }
                }
                assert(self.entries().dom() =~= self.keyOrder().to_set());
                assert forall|i: int, j: int| 0 <= i < j < self.keyOrder().len() implies self
                    .keyOrder()[i] != self.keyOrder()[j] by {
                    if j == self.keyOrder().len() - 1 {
                        assert(old(self).keyOrder().contains(old(self).keyOrder()[i]));
                    }
                }
            }
            return LookupResult::Reserved;
        }
        let refreshed: Option<Arc<RgbImg>> = match self.iconCache.get(path) {
            Some(LoadStage::Loaded(_, img)) => Some(cloneArc(img)),
            _ => None,
        };
        match refreshed {
            Some(img) => {
                self.iconCache.insert(path.to_owned(), LoadStage::Loaded(now, cloneArc(&img)));
                proof {
                    assert(self.entries().dom() =~= old(self).entries().dom());
                    assert(self.entries().dom() == self.keyOrder().to_set());
                }
                LookupResult::AlreadyLoaded(img)
            },
            None => LookupResult::AlreadyLoading,
        }
    }

    /// Resolve a reserved path. On a key that is absent or already resolved
    /// this is a defined no-op, so a stale completion racing with eviction
    /// cannot fault.
    pub fn complete(&mut self, path: &str, image: Arc<RgbImg>, now: u64)
        requires
            old(self).wf(),
        ensures
            final(self).wf(),
            final(self).spec_generation() == old(self).spec_generation(),
            final(self).spec_default() == old(self).spec_default(),
            final(self).spec_folder() == old(self).spec_folder(),
            final(self).keyOrder() == old(self).keyOrder(),
            (old(self).entries().contains_key(path@) && old(self).entries()[path@] is Loading)
                ==> final(self).entries() == old(self).entries().insert(
                path@,
                LoadStage::Loaded(now, image),
            ),
            !(old(self).entries().contains_key(path@) && old(self).entries()[path@] is Loading)
                ==> final(self).entries() == old(self).entries(),
    {
        let isLoading = match self.iconCache.get(path) {
            Some(LoadStage::Loading) => true,
            _ => false,
        };
        if isLoading {
            self.iconCache.insert(path.to_owned(), LoadStage::Loaded(now, image));
            proof {
                assert(self.entries().dom() =~= old(self).entries().dom());
                assert(self.entries().dom() == self.keyOrder().to_set());
            }
        }
    }

    /// Choose the icon for a probed path, as the decode task does: a missing
    /// path or a failed or unattempted decode degrades to the shared default
    /// placeholder, a directory to the folder placeholder; only a decoded
    /// file yields a genuine thumbnail.
    pub fn resolveIcon(&self, exists: bool, isDir: bool, decoded: Option<RgbImg>) -> (r: Arc<
        RgbImg,
    >)
        ensures
            !exists ==> r == self.spec_default(),
            (exists && isDir) ==> r == self.spec_folder(),
            (exists && !isDir) ==> match decoded {
                Some(img) => r@ == img@,
                None => r == self.spec_default(),
            },
    {
        if !exists {
            return cloneArc(&self.default);
        }
        if isDir {
            return cloneArc(&self.folder);
        }
        match decoded {
            Some(img) => Arc::new(img),
            None => cloneArc(&self.default),
        }
    }
}

/// Whether a file name extension is one the thumbnail decoder is tried for.
pub fn hasRasterExtension(ext: &str) -> (r: bool)
    ensures
        r == (ext@ == "jpg"@ || ext@ == "png"@),
{
    strEq(ext, "jpg") || strEq(ext, "png")
}

/// Law: single flight — the reservation that `lookupOrReserve` grants for
/// an absent key records the key as loading, so by that contract every
/// later lookup sees the key present and is never granted `Reserved` again
/// until the entry is evicted and re-inserted.
pub proof fn singleFlightLaw(entries: Map<Seq<char>, LoadStage>, path: Seq<char>)
    ensures
        entries.insert(path, LoadStage::Loading).contains_key(path),
        entries.insert(path, LoadStage::Loading)[path] is Loading,
{
}

/// Whether one sweep keeps a cache entry: an unresolved reservation is
/// always kept; a resolved entry is kept unless its age and the draw evict
/// it.
pub open spec fn keepEntry(stage: LoadStage, now: u64, draw: u32) -> bool {
    match stage {
        LoadStage::Loading => true,
        LoadStage::Loaded(t, _) => !spec_shouldEvict(ageOf(now, t), draw),
    }
}

/// The keys one sweep keeps, in order: key `i` is judged on draw `i`.
pub open spec fn sweptKeys(
    keys: Seq<Seq<char>>,
    entries: Map<Seq<char>, LoadStage>,
    draws: Seq<u32>,
    now: u64,
) -> Seq<Seq<char>>
    decreases keys.len(),
{
    if keys.len() == 0 {
        Seq::empty()
    } else {
        let rest = sweptKeys(keys.drop_last(), entries, draws.drop_last(), now);
        if keepEntry(entries[keys.last()], now, draws.last()) {
            rest.push(keys.last())
        } else {
            rest
        }
    }
}

/// Law: eviction bounds — at or below the minimum age no draw evicts; from
/// the maximum age on every draw evicts; an unresolved entry survives every
/// sweep whatever its age.
pub proof fn evictionBoundsLaw(age: int, draw: u32, stage: LoadStage, now: u64)
    ensures
        age <= MIN_AGE_MS ==> !spec_shouldEvict(age, draw),
        age >= MAX_AGE_MS ==> spec_shouldEvict(age, draw),
        stage is Loading ==> keepEntry(stage, now, draw),
{
    if age <= MIN_AGE_MS {
        assert(rampNum(age) == 0);
    }
    if age >= MAX_AGE_MS {
        assert(rampNum(age) == MAX_AGE_MS - MIN_AGE_MS);
        assert(rampNum(age) * rampNum(age) * rampNum(age) * rampNum(age) == RAMP_SPAN_4);
        assert((draw as int) * RAMP_SPAN_4 < RAMP_SPAN_4 * 0x1_0000_0000) by (nonlinear_arith)
            requires
                0 <= (draw as int) < 0x1_0000_0000,
                RAMP_SPAN_4 > 0,
        ;
    }
}

/// Membership in the kept keys: a key judged kept is kept, and every kept
/// key was judged kept at its position.
pub proof fn lemma_sweptKeys_membership(
    keys: Seq<Seq<char>>,
    entries: Map<Seq<char>, LoadStage>,
    draws: Seq<u32>,
    now: u64,
)
    requires
        draws.len() == keys.len(),
    ensures
        forall|i: int|
            0 <= i < keys.len() && keepEntry(entries[#[trigger] keys[i]], now, draws[i])
                ==> sweptKeys(keys, entries, draws, now).contains(keys[i]),
        forall|k: Seq<char>|
            #[trigger] sweptKeys(keys, entries, draws, now).contains(k) ==> exists|i: int|
                0 <= i < keys.len() && keys[i] == k && keepEntry(entries[k], now, draws[i]),
    decreases keys.len(),
{
    if keys.len() > 0 {
        lemma_sweptKeys_membership(keys.drop_last(), entries, draws.drop_last(), now);
        let rest = sweptKeys(keys.drop_last(), entries, draws.drop_last(), now);
        let whole = sweptKeys(keys, entries, draws, now);
        assert forall|i: int|
            0 <= i < keys.len() && keepEntry(entries[#[trigger] keys[i]], now, draws[i]) implies
            whole.contains(keys[i]) by {
            if i < keys.len() - 1 {
                assert(keys.drop_last()[i] == keys[i]);
                assert(draws.drop_last()[i] == draws[i]);
                assert(rest.contains(keys[i]));
                let j = choose|j: int| 0 <= j < rest.len() && rest[j] == keys[i];
                assert(whole[j] == keys[i]);
            } else {
                assert(whole[whole.len() - 1] == keys.last());
            }
        }
        assert forall|k: Seq<char>| #[trigger] whole.contains(k) implies exists|i: int|
            0 <= i < keys.len() && keys[i] == k && keepEntry(entries[k], now, draws[i]) by {
            let j = choose|j: int| 0 <= j < whole.len() && whole[j] == k;
            if j < rest.len() {
                assert(rest[j] == k);
                assert(rest.contains(k));
                let i = choose|i: int|
                    0 <= i < keys.drop_last().len() && keys.drop_last()[i] == k && keepEntry(
                        entries[k],
                        now,
                        draws.drop_last()[i],
                    );
                assert(keys[i] == k && keepEntry(entries[k], now, draws[i]));
            } else {
                assert(whole[j] == keys.last());
                assert(keys[keys.len() - 1] == k && keepEntry(
                    entries[k],
                    now,
                    draws[keys.len() - 1],
                ));
            }
        }
    }
}

/// Relies on `rand::random`: a uniformly random 32-bit draw from the
/// thread-local generator. Nothing is assumed of the outcome.
#[verifier::external_body]
fn randomDraw() -> u32 {
    rand::random()
}

impl GlobalIcons {
    /// One sweep pass with the given draws, one per cached key in order:
    /// every surviving entry is unchanged, unresolved entries all survive,
    /// and key `i` survives exactly when `keepEntry` holds of it.
    pub fn sweepWithDraws(&mut self, now: u64, draws: &Vec<u32>)
        requires
            old(self).wf(),
            draws@.len() == old(self).keyOrder().len(),
        ensures
            final(self).wf(),
            final(self).spec_generation() == old(self).spec_generation(),
            final(self).spec_default() == old(self).spec_default(),
            final(self).spec_folder() == old(self).spec_folder(),
            final(self).keyOrder() == sweptKeys(
                old(self).keyOrder(),
                old(self).entries(),
                draws@,
                now,
            ),
            forall|k: Seq<char>|
                #[trigger] final(self).entries().contains_key(k) ==> old(
                    self,
                ).entries().contains_key(k) && final(self).entries()[k] == old(self).entries()[k],
    {
        let ghost oldKeys = self.keyOrder();
        let ghost oldEntries = self.entries();
        let mut newKeys: Vec<String> = Vec::new();
        let mut i: usize = 0;
        proof {
            assert(oldKeys.take(0) =~= Seq::<Seq<char>>::empty());
            assert(draws@.take(0) =~= Seq::<u32>::empty());
            assert(viewsOfStrings(newKeys@) =~= Seq::<Seq<char>>::empty());
        }
        while i < self.cacheKeys.len()
            invariant
                i <= self.cacheKeys.len(),
                draws@.len() == oldKeys.len(),
                self.keyOrder() == oldKeys,
                oldKeys.len() == self.cacheKeys.len(),
                self.spec_generation() == old(self).spec_generation(),
                self.spec_default() == old(self).spec_default(),
                self.spec_folder() == old(self).spec_folder(),
                oldKeys == old(self).keyOrder(),
                oldEntries == old(self).entries(),
                forall|a: int, b: int| 0 <= a < b < oldKeys.len() ==> oldKeys[a] != oldKeys[b],
                viewsOfStrings(newKeys@) == sweptKeys(
                    oldKeys.take(i as int),
                    oldEntries,
                    draws@.take(i as int),
                    now,
                ),
                // keys not yet judged are untouched
                forall|j: int|
                    i <= j < oldKeys.len() ==> self.entries().contains_key(#[trigger] oldKeys[j])
                        && self.entries()[oldKeys[j]] == oldEntries[oldKeys[j]],
                // kept keys stay with their entry
                forall|k: Seq<char>|
                    #[trigger] viewsOfStrings(newKeys@).contains(k) ==> self.entries().contains_key(
                        k,
                    ) && self.entries()[k] == oldEntries[k],
                // nothing new, nothing changed
                forall|k: Seq<char>|
                    #[trigger] self.entries().contains_key(k) ==> oldEntries.contains_key(k)
                        && self.entries()[k] == oldEntries[k],
                // judged and evicted keys are gone
                forall|j: int|
                    0 <= j < i && !sweptKeys(
                        oldKeys.take(i as int),
                        oldEntries,
                        draws@.take(i as int),
                        now,
                    ).contains(#[trigger] oldKeys[j]) ==> !self.entries().contains_key(oldKeys[j]),
            decreases self.cacheKeys.len() - i,
        {
            let ghost sweptPre = sweptKeys(oldKeys.take(i as int), oldEntries, draws@.take(i as int), now);
            proof {
                assert(oldKeys.take(i + 1).drop_last() =~= oldKeys.take(i as int));
                assert(draws@.take(i + 1).drop_last() =~= draws@.take(i as int));
                assert(oldKeys.take(i + 1).last() == oldKeys[i as int]);
                assert(draws@.take(i + 1).last() == draws@[i as int]);
            }
            let ghost sweptPost = sweptKeys(oldKeys.take(i + 1), oldEntries, draws@.take(i + 1), now);
            let keep: bool = match self.iconCache.get(self.cacheKeys[i].as_str()) {
                Some(LoadStage::Loading) => true,
                Some(LoadStage::Loaded(t, _)) => {
                    let age: u64 = if now >= *t {
                        now - *t
                    } else {
                        0
                    };
                    !shouldEvict(age, draws[i])
                },
                None => true,
            };
            proof {
                assert(self.entries().contains_key(oldKeys[i as int]));
                assert(keep == keepEntry(oldEntries[oldKeys[i as int]], now, draws@[i as int]));
            }
            if keep {
                let ghost keptPre = viewsOfStrings(newKeys@);
                newKeys.push(self.cacheKeys[i].clone());
                proof {
                    assert(viewsOfStrings(newKeys@) =~= sweptPre.push(oldKeys[i as int]));
                    assert(viewsOfStrings(newKeys@) == sweptPost);
                    assert forall|k: Seq<char>| #[trigger] viewsOfStrings(newKeys@).contains(
                        k,
                    ) implies self.entries().contains_key(k) && self.entries()[k] == oldEntries[k]
                        by {
                        let a = choose|a: int|
                            0 <= a < viewsOfStrings(newKeys@).len() && viewsOfStrings(
                                newKeys@,
                            )[a] == k;
                        if a < viewsOfStrings(newKeys@).len() - 1 {
                            assert(keptPre[a] == k);
                            assert(keptPre.contains(k));
                        } else {
                            assert(k == oldKeys[i as int]);
                        }
                    }
                    assert forall|j: int|
                        0 <= j < i + 1 && !sweptPost.contains(#[trigger] oldKeys[j]) implies !self
                        .entries()
                        .contains_key(oldKeys[j]) by {
                        if j < i {
                            if sweptPre.contains(oldKeys[j]) {
                                let a = choose|a: int|
                                    0 <= a < sweptPre.len() && sweptPre[a] == oldKeys[j];
                                assert(sweptPost[a] == oldKeys[j]);
                            }
                        } else {
                            assert(sweptPost[sweptPost.len() - 1] == oldKeys[i as int]);
                        }
                    }
                }
            } else {
                let key = self.cacheKeys[i].clone();
                self.iconCache.remove(key.as_str());
                proof {
                    assert(viewsOfStrings(newKeys@) == sweptPost);
                    lemma_sweptKeys_membership(
                        oldKeys.take(i as int),
                        oldEntries,
                        draws@.take(i as int),
                        now,
                    );
                    assert forall|k: Seq<char>| #[trigger] viewsOfStrings(newKeys@).contains(
                        k,
                    ) implies self.entries().contains_key(k) && self.entries()[k] == oldEntries[k]
                        by {
                        assert(sweptPre.contains(k));
                        let b = choose|b: int|
                            0 <= b < oldKeys.take(i as int).len() && oldKeys.take(i as int)[b] == k
                                && keepEntry(oldEntries[k], now, draws@.take(i as int)[b]);
                        assert(oldKeys[b] == k);
                        assert(k != oldKeys[i as int]);
                    }
                    assert forall|j: int|
                        i + 1 <= j < oldKeys.len() implies self.entries().contains_key(
                        #[trigger] oldKeys[j],
                    ) && self.entries()[oldKeys[j]] == oldEntries[oldKeys[j]] by {
                        assert(oldKeys[j] != oldKeys[i as int]);
                    }
                }
            }
            i = i + 1;
        }
        let ghost newViews = viewsOfStrings(newKeys@);
        self.cacheKeys = newKeys;
        proof {
            assert(oldKeys.take(oldKeys.len() as int) =~= oldKeys);
            assert(draws@.take(draws@.len() as int) =~= draws@);
            assert(self.keyOrder() =~= newViews);
            let swept = sweptKeys(oldKeys, oldEntries, draws@, now);
            lemma_sweptKeys_membership(oldKeys, oldEntries, draws@, now);
            lemma_sweptKeys_distinct(oldKeys, oldEntries, draws@, now);
            assert(self.entries().dom() =~= self.keyOrder().to_set()) by {
                assert forall|k: Seq<char>| self.entries().contains_key(k) implies swept.contains(
                    k,
                ) by {
                    assert(oldEntries.contains_key(k));
                    assert(oldKeys.to_set().contains(k));
                    let j = choose|j: int| 0 <= j < oldKeys.len() && oldKeys[j] == k;
                    assert(!(!swept.contains(oldKeys[j])));
                }
                assert forall|k: Seq<char>| swept.contains(k) implies self.entries().contains_key(
                    k,
                ) by {}
            }
        }
    }

    /// One sweep pass with fresh randomness: every surviving entry is
    /// unchanged, unresolved reservations and entries at or below the
    /// minimum age always survive, and entries at or beyond the maximum age
    /// never do.
    pub fn sweepOnce(&mut self, now: u64)
        requires
            old(self).wf(),
        ensures
            final(self).wf(),
            final(self).spec_generation() == old(self).spec_generation(),
            final(self).spec_default() == old(self).spec_default(),
            final(self).spec_folder() == old(self).spec_folder(),
            forall|k: Seq<char>|
                #[trigger] final(self).entries().contains_key(k) ==> old(
                    self,
                ).entries().contains_key(k) && final(self).entries()[k] == old(self).entries()[k],
            forall|k: Seq<char>|
                old(self).entries().contains_key(k) && old(self).entries()[k] is Loading
                    ==> #[trigger] final(self).entries().contains_key(k),
            forall|k: Seq<char>|
                old(self).entries().contains_key(k) && (old(self).entries()[k] matches
                    LoadStage::Loaded(t, img) && ageOf(now, t) <= MIN_AGE_MS)
                    ==> #[trigger] final(self).entries().contains_key(k),
            forall|k: Seq<char>|
                old(self).entries().contains_key(k) && (old(self).entries()[k] matches
                    LoadStage::Loaded(t, img) && ageOf(now, t) >= MAX_AGE_MS)
                    ==> !#[trigger] final(self).entries().contains_key(k),
    {
        let mut draws: Vec<u32> = Vec::new();
        let count = self.cacheKeys.len();
        let mut i: usize = 0;
        while i < count
            invariant
                i <= count,
                draws@.len() == i,
            decreases count - i,
        {
            draws.push(randomDraw());
            i = i + 1;
        }
        let ghost oldKeys = self.keyOrder();
        let ghost oldEntries = self.entries();
        self.sweepWithDraws(now, &draws);
        proof {
            lemma_sweptKeys_membership(oldKeys, oldEntries, draws@, now);
            let swept = sweptKeys(oldKeys, oldEntries, draws@, now);
            assert forall|k: Seq<char>|
                oldEntries.contains_key(k) && keepAllDraws(oldEntries[k], now) implies
                #[trigger] self.entries().contains_key(k) by {
                assert(oldKeys.to_set().contains(k));
                let j = choose|j: int| 0 <= j < oldKeys.len() && oldKeys[j] == k;
                assert(keepEntry(oldEntries[oldKeys[j]], now, draws@[j]));
                assert(swept.contains(oldKeys[j]));
                assert(self.keyOrder().to_set().contains(k));
                assert(self.entries().dom() == self.keyOrder().to_set());
            }
            assert forall|k: Seq<char>|
                oldEntries.contains_key(k) && (oldEntries[k] matches LoadStage::Loaded(t, img)
                    && ageOf(now, t) >= MAX_AGE_MS) implies !#[trigger] self
                .entries()
                .contains_key(k) by {
                if self.entries().contains_key(k) {
                    assert(self.keyOrder().to_set().contains(k));
                    assert(swept.contains(k));
                    let j = choose|j: int|
                        0 <= j < oldKeys.len() && oldKeys[j] == k && keepEntry(
                            oldEntries[k],
                            now,
                            draws@[j],
                        );
                    evictionBoundsLaw(
                        ageOf(now, oldEntries[k]->Loaded_0),
                        draws@[j],
                        oldEntries[k],
                        now,
                    );
                }
            }
            assert forall|k: Seq<char>|
                oldEntries.contains_key(k) && oldEntries[k] is Loading implies #[trigger] self
                .entries()
                .contains_key(k) by {
                assert(keepAllDraws(oldEntries[k], now));
            }
            assert forall|k: Seq<char>|
                oldEntries.contains_key(k) && (oldEntries[k] matches LoadStage::Loaded(t, img)
                    && ageOf(now, t) <= MIN_AGE_MS) implies #[trigger] self.entries().contains_key(
                k,
            ) by {
                assert(keepAllDraws(oldEntries[k], now)) by {
                    assert forall|d: u32| keepEntry(oldEntries[k], now, d) by {
                        evictionBoundsLaw(
                            ageOf(now, oldEntries[k]->Loaded_0),
                            d,
                            oldEntries[k],
                            now,
                        );
                    }
                }
            }
        }
    }
}

/// An entry every draw keeps: unresolved, or young enough.
pub open spec fn keepAllDraws(stage: LoadStage, now: u64) -> bool {
    forall|d: u32| keepEntry(stage, now, d)
}

/// The kept keys carry no duplicates when the judged keys carry none.
pub proof fn lemma_sweptKeys_distinct(
    keys: Seq<Seq<char>>,
    entries: Map<Seq<char>, LoadStage>,
    draws: Seq<u32>,
    now: u64,
)
    requires
        draws.len() == keys.len(),
        forall|a: int, b: int| 0 <= a < b < keys.len() ==> keys[a] != keys[b],
    ensures
        forall|a: int, b: int|
            0 <= a < b < sweptKeys(keys, entries, draws, now).len() ==> sweptKeys(
                keys,
                entries,
                draws,
                now,
            )[a] != sweptKeys(keys, entries, draws, now)[b],
    decreases keys.len(),
{
    if keys.len() > 0 {
        lemma_sweptKeys_distinct(keys.drop_last(), entries, draws.drop_last(), now);
        lemma_sweptKeys_membership(keys.drop_last(), entries, draws.drop_last(), now);
        let rest = sweptKeys(keys.drop_last(), entries, draws.drop_last(), now);
        let whole = sweptKeys(keys, entries, draws, now);
        assert forall|a: int, b: int| 0 <= a < b < whole.len() implies whole[a] != whole[b] by {
            if b == whole.len() - 1 && whole.len() > rest.len() {
                assert(whole[b] == keys.last());
                assert(rest[a] == whole[a]);
                assert(rest.contains(rest[a]));
                let i = choose|i: int|
                    0 <= i < keys.drop_last().len() && keys.drop_last()[i] == rest[a] && keepEntry(
                        entries[rest[a]],
                        now,
                        draws.drop_last()[i],
                    );
                assert(keys[i] == rest[a]);
            }
        }
    }
}

/// The views of a sequence of owned strings.
pub open spec fn viewsOfStrings(v: Seq<String>) -> Seq<Seq<char>> {
    v.map_values(|s: String| s@)
}

} // verus!
