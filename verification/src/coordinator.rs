//! The load coordinator: resolves icons for one ordered directory listing,
//! emitting an ordered event stream — `MakeUI` first, an update for each
//! genuinely new icon at most once per path, and exactly one final `End`.
//!
//! Cancellation is cooperative: a coordinator holding a superseded
//! generation suppresses its updates but still drains to its `End`.
use vstd::prelude::*;
use std::sync::Arc;
use crate::rgba_img::{RgbImg, RgbImgV, cloneArc};
use crate::icon::{GlobalIcons, LoadStage, LookupResult};

verus! {

/// One resolved icon pushed to the directory view.
pub struct LoadedIcon {
    pub image: Arc<RgbImg>,
    pub path: String,
}

/// Events pushed, in order, from one directory-open request to its consumer.
pub enum FileLoaderAction {
    /// First event of every request: the initial rows can be built.
    MakeUI,
    /// A genuine (non-placeholder) icon resolved for one listed path.
    UpdateFile(LoadedIcon),
    /// Last event of every request, sent exactly once.
    End,
}

impl FileLoaderAction {
    /// The event as text, as the logs show it.
    pub fn describe(&self) -> (r: String)
        ensures
            self is MakeUI ==> r@ == "MakeUI"@,
            self matches FileLoaderAction::UpdateFile(ic) ==> r@ == "UpdateFile{"@ + ic.path@
                + "}"@,
            self is End ==> r@ == "END"@,
    {
        match self {
            FileLoaderAction::MakeUI => String::from_str("MakeUI"),
            FileLoaderAction::UpdateFile(ic) => {
                let mut s = String::from_str("UpdateFile{");
                s.append(ic.path.as_str());
                s.append("}");
                s
            },
            FileLoaderAction::End => String::from_str("END"),
        }
    }
}

/// Ghost view of an event; an update is identified by the path it concerns.
pub ghost enum EventV {
    MakeUI,
    Update(Seq<char>),
    End,
}

pub open spec fn actionView(a: FileLoaderAction) -> EventV {
    match a {
        FileLoaderAction::MakeUI => EventV::MakeUI,
        FileLoaderAction::UpdateFile(ic) => EventV::Update(ic.path@),
        FileLoaderAction::End => EventV::End,
    }
}

pub open spec fn actionViews(s: Seq<FileLoaderAction>) -> Seq<EventV> {
    s.map_values(|a: FileLoaderAction| actionView(a))
}

/// The views of a sequence of owned strings.
pub open spec fn viewsOf(v: Seq<String>) -> Seq<Seq<char>> {
    v.map_values(|s: String| s@)
}

/// No two update events concern the same path.
pub open spec fn distinctUpdates(t: Seq<EventV>) -> bool {
    forall|i: int, j: int|
        0 <= i < j < t.len() && t[i] is Update && t[j] is Update ==> t[i] != t[j]
}

/// A complete request trace: `MakeUI` first and only first, `End` last and
/// unique, and no path updated twice.
pub open spec fn wellOrdered(t: Seq<EventV>) -> bool {
    &&& t.len() >= 2
    &&& t[0] == EventV::MakeUI
    &&& (forall|i: int| 1 <= i < t.len() ==> t[i] != EventV::MakeUI)
    &&& t.last() == EventV::End
    &&& (forall|i: int| 0 <= i < t.len() - 1 ==> t[i] != EventV::End)
    &&& distinctUpdates(t)
}

/// Number of update events in a trace.
pub open spec fn updateCount(t: Seq<EventV>) -> int
    decreases t.len(),
{
    if t.len() == 0 {
        0
    } else {
        updateCount(t.drop_last()) + if t.last() is Update {
            1int
        } else {
            0int
        }
    }
}

/// State built up while the initial listing is scanned against the cache.
pub ghost struct ScanState {
    /// The cache contents after the scanned prefix.
    pub entries: Map<Seq<char>, LoadStage>,
    /// Paths whose resolution this request still awaits.
    pub waiting: Seq<Seq<char>>,
    /// Paths this request reserved and must hand to the decode pool.
    pub dispatch: Seq<Seq<char>>,
    /// Update events already owed for revisited, resolved paths.
    pub evs: Seq<EventV>,
}

/// Effect of scanning one path: reserve it when absent, lean on the owner
/// when loading, refresh and (for a genuine icon, once) emit when loaded.
pub open spec fn scanStep(st: ScanState, p: Seq<char>, now: u64) -> ScanState {
    if !st.entries.contains_key(p) {
        ScanState {
            entries: st.entries.insert(p, LoadStage::Loading),
            waiting: st.waiting.push(p),
            dispatch: st.dispatch.push(p),
            evs: st.evs,
        }
    } else {
        match st.entries[p] {
            LoadStage::Loading => ScanState {
                entries: st.entries,
                waiting: if st.waiting.contains(p) {
                    st.waiting
                } else {
                    st.waiting.push(p)
                },
                dispatch: st.dispatch,
                evs: st.evs,
            },
            LoadStage::Loaded(t, img) => ScanState {
                entries: st.entries.insert(p, LoadStage::Loaded(now, img)),
                waiting: st.waiting,
                dispatch: st.dispatch,
                evs: if !img@.isDefault && !st.evs.contains(EventV::Update(p)) {
                    st.evs.push(EventV::Update(p))
                } else {
                    st.evs
                },
            },
        }
    }
}

/// Scanning a whole listing, left to right.
pub open spec fn scanFold(init: Map<Seq<char>, LoadStage>, paths: Seq<Seq<char>>, now: u64) -> ScanState
    decreases paths.len(),
{
    if paths.len() == 0 {
        ScanState {
            entries: init,
            waiting: Seq::empty(),
            dispatch: Seq::empty(),
            evs: Seq::empty(),
        }
    } else {
        scanStep(scanFold(init, paths.drop_last(), now), paths.last(), now)
    }
}

/// Whether a completion is worth an update event: the request must still be
/// current and the resolved image must not be a placeholder.
pub open spec fn emitsUpdate(cacheGeneration: u64, requestGeneration: u64, image: RgbImgV) -> bool {
    cacheGeneration == requestGeneration && !image.isDefault
}

/// One directory-open request: its generation, the paths it still awaits,
/// and (as ghost state) the full trace of events it has emitted.
pub struct LoadCoordinator {
    generation: u64,
    waiting: Vec<String>,
    done: bool,
    trace: Ghost<Seq<EventV>>,
}

impl LoadCoordinator {
    /// The fence token this request captured at start.
    pub closed spec fn spec_generation(&self) -> u64 {
        self.generation
    }

    /// Paths whose resolution this request still awaits, each once.
    pub closed spec fn waitingViews(&self) -> Seq<Seq<char>> {
        viewsOf(self.waiting@)
    }

    /// Whether the final `End` has been emitted.
    pub closed spec fn isDone(&self) -> bool {
        self.done
    }

    /// Every event this request has emitted, in order.
    pub closed spec fn traceView(&self) -> Seq<EventV> {
        self.trace@
    }

    pub open spec fn wf(&self) -> bool {
        &&& (forall|i: int, j: int|
            0 <= i < j < self.waitingViews().len() ==> self.waitingViews()[i]
                != self.waitingViews()[j])
        &&& self.traceView().len() >= 1
        &&& self.traceView()[0] == EventV::MakeUI
        &&& (forall|i: int|
            1 <= i < self.traceView().len() ==> self.traceView()[i] != EventV::MakeUI)
        &&& (self.isDone() ==> self.traceView().last() == EventV::End
            && self.waitingViews().len() == 0)
        &&& (forall|i: int|
            0 <= i < self.traceView().len() - (if self.isDone() {
                1int
            } else {
                0int
            }) ==> self.traceView()[i] != EventV::End)
        &&& distinctUpdates(self.traceView())
        &&& (forall|i: int|
            0 <= i < self.traceView().len() && self.traceView()[i] is Update
                ==> !self.waitingViews().contains(self.traceView()[i]->Update_0))
    }

    /// Number of paths this request still awaits.
    pub fn waitingCount(&self) -> (r: usize)
        ensures
            r == self.waitingViews().len(),
    {
        self.waiting.len()
    }

    /// Whether the final `End` has been emitted.
    pub fn finished(&self) -> (r: bool)
        ensures
            r == self.isDone(),
    {
        self.done
    }

    /// Open a directory listing: fence older requests, emit `MakeUI`, then
    /// scan every path through the cache. Returns the new request, the
    /// events to push now, and the reserved paths to hand to the decoders.
    pub fn start(cache: &mut GlobalIcons, paths: &Vec<String>, now: u64) -> (r: (
        LoadCoordinator,
        Vec<FileLoaderAction>,
        Vec<String>,
    ))
        requires
            old(cache).wf(),
            old(cache).spec_generation() < u64::MAX,
        ensures
            final(cache).wf(),
            final(cache).spec_generation() == old(cache).spec_generation() + 1,
            final(cache).spec_default() == old(cache).spec_default(),
            final(cache).spec_folder() == old(cache).spec_folder(),
            r.0.wf(),
            r.0.spec_generation() == final(cache).spec_generation(),
            ({
                let st = scanFold(old(cache).entries(), viewsOf(paths@), now);
                &&& final(cache).entries() == st.entries
                &&& final(cache).keyOrder() == old(cache).keyOrder() + st.dispatch
                &&& r.0.waitingViews() == st.waiting
                &&& r.0.isDone() == (st.waiting.len() == 0)
                &&& viewsOf(r.2@) == st.dispatch
                &&& actionViews(r.1@) == seq![EventV::MakeUI] + st.evs + (if st.waiting.len()
                    == 0 {
                    seq![EventV::End]
                } else {
                    Seq::<EventV>::empty()
                })
                &&& r.0.traceView() == actionViews(r.1@)
            }),
            forall|i: int|
                0 <= i < r.1@.len() && #[trigger] r.1@[i] is UpdateFile ==> {
                    let ic = r.1@[i]->UpdateFile_0;
                    &&& final(cache).entries().contains_key(ic.path@)
                    &&& final(cache).entries()[ic.path@] == LoadStage::Loaded(now, ic.image)
                    &&& !ic.image@.isDefault
                },
    {
        let generation = cache.nextGeneration();
        let mut events: Vec<FileLoaderAction> = Vec::new();
        events.push(FileLoaderAction::MakeUI);
        let mut waiting: Vec<String> = Vec::new();
        let mut dispatch: Vec<String> = Vec::new();
        let mut updated: Vec<String> = Vec::new();
        let ghost init = old(cache).entries();
        let mut i: usize = 0;
        proof {
            assert(viewsOf(paths@).take(0) =~= Seq::<Seq<char>>::empty());
            assert(actionViews(events@) =~= seq![EventV::MakeUI] + Seq::<EventV>::empty());
            assert(cache.keyOrder() =~= old(cache).keyOrder() + Seq::<Seq<char>>::empty());
        }
        while i < paths.len()
            invariant
                i <= paths.len(),
                cache.wf(),
                cache.spec_generation() == old(cache).spec_generation() + 1,
                cache.spec_default() == old(cache).spec_default(),
                cache.spec_folder() == old(cache).spec_folder(),
                init == old(cache).entries(),
                ({
                    let st = scanFold(init, viewsOf(paths@).take(i as int), now);
                    &&& cache.entries() == st.entries
                    &&& cache.keyOrder() == old(cache).keyOrder() + st.dispatch
                    &&& viewsOf(waiting@) == st.waiting
                    &&& viewsOf(dispatch@) == st.dispatch
                    &&& actionViews(events@) == seq![EventV::MakeUI] + st.evs
                }),
                // each waiting path is reserved in the cache
                forall|k: Seq<char>|
                    viewsOf(waiting@).contains(k) ==> cache.entries().contains_key(k)
                        && cache.entries()[k] is Loading,
                forall|a: int, b: int|
                    0 <= a < b < viewsOf(waiting@).len() ==> viewsOf(waiting@)[a] != viewsOf(
                        waiting@,
                    )[b],
                // every owed event is an update for a resolved, genuine icon
                forall|j: int|
                    0 <= j < scanFold(init, viewsOf(paths@).take(i as int), now).evs.len()
                        ==> #[trigger] scanFold(init, viewsOf(paths@).take(i as int), now).evs[j]
                        is Update,
                forall|k: Seq<char>|
                    #[trigger] updatePathsOf(
                        scanFold(init, viewsOf(paths@).take(i as int), now).evs,
                    ).contains(k) ==> cache.entries().contains_key(k) && cache.entries()[k]
                        is Loaded,
                // the paths already granted an update, in emission order
                viewsOf(updated@) == updatePathsOf(
                    scanFold(init, viewsOf(paths@).take(i as int), now).evs,
                ),
                distinctUpdates(scanFold(init, viewsOf(paths@).take(i as int), now).evs),
                forall|j: int|
                    0 <= j < events@.len() && #[trigger] events@[j] is UpdateFile ==> {
                        let ic = events@[j]->UpdateFile_0;
                        &&& cache.entries().contains_key(ic.path@)
                        &&& cache.entries()[ic.path@] == LoadStage::Loaded(now, ic.image)
                        &&& !ic.image@.isDefault
                    },
            decreases paths.len() - i,
        {
            let ghost stPre = scanFold(init, viewsOf(paths@).take(i as int), now);
            let p = &paths[i];
            proof {
                assert(viewsOf(paths@).take(i + 1).drop_last() =~= viewsOf(paths@).take(i as int));
                assert(viewsOf(paths@).take(i + 1).last() == p@);
                assert(scanFold(init, viewsOf(paths@).take(i + 1), now) == scanStep(
                    stPre,
                    p@,
                    now,
                ));
            }
            let ghost st = scanFold(init, viewsOf(paths@).take(i + 1), now);
            let ghost cachePre = *cache;
            match cache.lookupOrReserve(p.as_str(), now) {
                LookupResult::Reserved => {
                    proof {
                        assert(!viewsOf(waiting@).contains(p@));
                    }
                    waiting.push(p.clone());
                    dispatch.push(p.clone());
                    proof {
                        assert(viewsOf(waiting@) =~= st.waiting);
                        assert(viewsOf(dispatch@) =~= st.dispatch);
                        assert(cache.keyOrder() =~= old(cache).keyOrder() + st.dispatch);
                        assert forall|a: int, b: int|
                            0 <= a < b < viewsOf(waiting@).len() implies viewsOf(waiting@)[a]
                            != viewsOf(waiting@)[b] by {
                            if b == viewsOf(waiting@).len() - 1 {
                                assert(stPre.waiting.contains(stPre.waiting[a]));
                            }
                        }
                        assert forall|k: Seq<char>| viewsOf(waiting@).contains(k) implies cache
                            .entries()
                            .contains_key(k) && cache.entries()[k] is Loading by {
                            let idx = choose|idx: int|
                                0 <= idx < viewsOf(waiting@).len() && viewsOf(waiting@)[idx] == k;
                            if idx < viewsOf(waiting@).len() - 1 {
                                assert(stPre.waiting[idx] == k);
                                assert(stPre.waiting.contains(k));
                                assert(cachePre.entries()[k] is Loading);
                            }
                        }
                    }
                },
                LookupResult::AlreadyLoading => {
                    if !vecContainsString(&waiting, p) {
                        waiting.push(p.clone());
                        proof {
                            assert(viewsOf(waiting@) =~= st.waiting);
                            assert forall|a: int, b: int|
                                0 <= a < b < viewsOf(waiting@).len() implies viewsOf(waiting@)[a]
                                != viewsOf(waiting@)[b] by {
                                if b == viewsOf(waiting@).len() - 1 {
                                    assert(stPre.waiting.contains(stPre.waiting[a]));
                                }
                            }
                            assert forall|k: Seq<char>| viewsOf(waiting@).contains(k) implies cache
                                .entries()
                                .contains_key(k) && cache.entries()[k] is Loading by {
                                let idx = choose|idx: int|
                                    0 <= idx < viewsOf(waiting@).len() && viewsOf(waiting@)[idx]
                                        == k;
                                if idx < viewsOf(waiting@).len() - 1 {
                                    assert(stPre.waiting[idx] == k);
                                    assert(stPre.waiting.contains(k));
                                    assert(cachePre.entries()[k] is Loading);
                                }
                            }
                        }
                    }
                },
                LookupResult::AlreadyLoaded(img) => {
                    proof {
                        lemma_updatePaths_contains(stPre.evs, p@);
                        assert(!viewsOf(waiting@).contains(p@));
                        assert forall|k: Seq<char>| viewsOf(waiting@).contains(k) implies cache
                            .entries()
                            .contains_key(k) && cache.entries()[k] is Loading by {
                            assert(cachePre.entries()[k] is Loading);
                        }
                    }
                    if !img.isDefault() && !vecContainsString(&updated, p) {
                        let ghost evsPre = events@;
                        updated.push(p.clone());
                        events.push(
                            FileLoaderAction::UpdateFile(LoadedIcon { image: img, path: p.clone() }),
                        );
                        proof {
                            assert(st.evs == stPre.evs.push(EventV::Update(p@)));
                            assert(stPre.evs.push(EventV::Update(p@)).drop_last() =~= stPre.evs);
                            assert(updatePathsOf(st.evs) =~= updatePathsOf(stPre.evs) + seq![p@]);
                            assert(events@.len() == evsPre.len() + 1);
                            assert(actionView(events@[events@.len() - 1]) == EventV::Update(p@));
                            assert(actionViews(evsPre) == seq![EventV::MakeUI] + stPre.evs);
                            assert(evsPre.len() == actionViews(evsPre).len());
                            assert(events@.len() == 1 + st.evs.len());
                            assert forall|j: int| 0 <= j < events@.len() implies actionViews(
                                events@,
                            )[j] == (seq![EventV::MakeUI] + st.evs)[j] by {
                                assert(actionViews(events@)[j] == actionView(events@[j]));
                                if j < events@.len() - 1 {
                                    assert(events@[j] == evsPre[j]);
                                    assert(actionViews(evsPre)[j] == actionView(evsPre[j]));
                                    assert((seq![EventV::MakeUI] + stPre.evs)[j] == (seq![
                                        EventV::MakeUI,
                                    ] + st.evs)[j]);
                                } else {
                                    assert((seq![EventV::MakeUI] + st.evs)[j] == st.evs[j - 1]);
                                    assert(st.evs[j - 1] == EventV::Update(p@));
                                }
                            }
                            assert(actionViews(events@) =~= seq![EventV::MakeUI] + st.evs);
                            assert(viewsOf(updated@) =~= updatePathsOf(st.evs));
                            assert forall|a: int, b: int|
                                0 <= a < b < st.evs.len() && st.evs[a] is Update && st.evs[b]
                                    is Update implies st.evs[a] != st.evs[b] by {
                                if b == st.evs.len() - 1 {
                                    assert(stPre.evs.contains(stPre.evs[a]));
                                }
                            }
                            assert forall|k: Seq<char>| #[trigger] updatePathsOf(
                                st.evs,
                            ).contains(k) implies cache.entries().contains_key(k)
                                && cache.entries()[k] is Loaded by {
                                if updatePathsOf(stPre.evs).contains(k) {
                                    assert(cachePre.entries()[k] is Loaded);
                                }
                            }
                        }
                    } else {
                        proof {
                            assert(st.evs == stPre.evs);
                            assert forall|k: Seq<char>| #[trigger] updatePathsOf(
                                st.evs,
                            ).contains(k) implies cache.entries().contains_key(k)
                                && cache.entries()[k] is Loaded by {
                                assert(cachePre.entries()[k] is Loaded);
                            }
                        }
                    }
                },
            }
            i = i + 1;
        }
        proof {
            assert(viewsOf(paths@).take(paths@.len() as int) =~= viewsOf(paths@));
        }
        let done = waiting.len() == 0;
        if done {
            events.push(FileLoaderAction::End);
        }
        let ghost st = scanFold(init, viewsOf(paths@), now);
        let coordinator = LoadCoordinator {
            generation,
            waiting,
            done,
            trace: Ghost(actionViews(events@)),
        };
        proof {
            if done {
                assert(actionViews(events@) =~= (seq![EventV::MakeUI] + st.evs).push(EventV::End));
                assert(actionViews(events@) =~= seq![EventV::MakeUI] + st.evs + seq![EventV::End]);
            } else {
                assert(actionViews(events@) =~= seq![EventV::MakeUI] + st.evs);
            }
        }
        (coordinator, events, dispatch)
    }

    /// Feed one broadcast completion to this request: drop the path from the
    /// waiting set; emit its update only when the request is still current
    /// and the icon is genuine; emit the one final `End` once nothing is
    /// awaited. A completion for a path not awaited, or after `End`, is a
    /// no-op.
    pub fn handleCompletion(
        &mut self,
        cache: &GlobalIcons,
        path: &String,
        image: &Arc<RgbImg>,
    ) -> (evs: Vec<FileLoaderAction>)
        requires
            old(self).wf(),
        ensures
            final(self).wf(),
            final(self).spec_generation() == old(self).spec_generation(),
            final(self).traceView() == old(self).traceView() + actionViews(evs@),
            (old(self).isDone() || !old(self).waitingViews().contains(path@)) ==> {
                &&& evs@.len() == 0
                &&& final(self).waitingViews() == old(self).waitingViews()
                &&& final(self).isDone() == old(self).isDone()
            },
            (!old(self).isDone() && old(self).waitingViews().contains(path@)) ==> {
                &&& final(self).waitingViews().to_set() == old(
                    self,
                ).waitingViews().to_set().remove(path@)
                &&& final(self).waitingViews().len() == old(self).waitingViews().len() - 1
                &&& final(self).isDone() == (old(self).waitingViews().len() == 1)
                &&& actionViews(evs@) == (if emitsUpdate(
                    cache.spec_generation(),
                    old(self).spec_generation(),
                    image@,
                ) {
                    seq![EventV::Update(path@)]
                } else {
                    Seq::<EventV>::empty()
                }) + (if old(self).waitingViews().len() == 1 {
                    seq![EventV::End]
                } else {
                    Seq::<EventV>::empty()
                })
                &&& (emitsUpdate(cache.spec_generation(), old(self).spec_generation(), image@)
                    ==> (evs@[0] matches FileLoaderAction::UpdateFile(ic) && ic.path@ == path@
                        && ic.image == *image))
            },
    {
        if self.done {
            let evs: Vec<FileLoaderAction> = Vec::new();
            proof {
                assert(actionViews(evs@) =~= Seq::<EventV>::empty());
                assert(self.traceView() =~= self.traceView() + actionViews(evs@));
            }
            return evs;
        }
        let found = findString(&self.waiting, path);
        match found {
            None => {
                let evs: Vec<FileLoaderAction> = Vec::new();
                proof {
                    assert(actionViews(evs@) =~= Seq::<EventV>::empty());
                    assert(self.traceView() =~= self.traceView() + actionViews(evs@));
                }
                evs
            },
            Some(i) => {
                let ghost wPre = self.waitingViews();
                self.waiting.remove(i);
                proof {
                    assert(self.waitingViews() =~= wPre.remove(i as int));
                    assert forall|k: Seq<char>| self.waitingViews().to_set().contains(k) implies
                        wPre.to_set().remove(path@).contains(k) by {
                        let a = choose|a: int|
                            0 <= a < self.waitingViews().len() && self.waitingViews()[a] == k;
                        if a < i {
                            assert(wPre[a] == k);
                        } else {
                            assert(wPre[a + 1] == k);
                        }
                        assert(wPre.contains(k));
                        assert(k != path@);
                    }
                    assert forall|k: Seq<char>| wPre.to_set().remove(path@).contains(k) implies self
                        .waitingViews()
                        .to_set()
                        .contains(k) by {
                        let a = choose|a: int| 0 <= a < wPre.len() && wPre[a] == k;
                        if a < i {
                            assert(self.waitingViews()[a] == k);
                        } else {
                            assert(a != i);
                            assert(self.waitingViews()[a - 1] == k);
                        }
                        assert(self.waitingViews().contains(k));
                    }
                    assert(self.waitingViews().to_set() =~= wPre.to_set().remove(path@));
                    assert forall|a: int, b: int|
                        0 <= a < b < self.waitingViews().len() implies self.waitingViews()[a]
                        != self.waitingViews()[b] by {
                        let oa: int = if a < i {
                            a
                        } else {
                            a + 1
                        };
                        let ob: int = if b < i {
                            b
                        } else {
                            b + 1
                        };
                        assert(self.waitingViews()[a] == wPre[oa]);
                        assert(self.waitingViews()[b] == wPre[ob]);
                    }
                }
                let mut evs: Vec<FileLoaderAction> = Vec::new();
                let emit = cache.isCurrent(self.generation) && !image.isDefault();
                if emit {
                    evs.push(
                        FileLoaderAction::UpdateFile(
                            LoadedIcon { image: cloneArc(image), path: path.clone() },
                        ),
                    );
                }
                if self.waiting.len() == 0 {
                    evs.push(FileLoaderAction::End);
                    self.done = true;
                }
                let ghost trPre = self.trace@;
                self.trace = Ghost(self.trace@ + actionViews(evs@));
                proof {
                    let ghost emitted: Seq<EventV> = if emitsUpdate(
                        cache.spec_generation(),
                        self.spec_generation(),
                        image@,
                    ) {
                        seq![EventV::Update(path@)]
                    } else {
                        Seq::<EventV>::empty()
                    };
                    let ghost ended: Seq<EventV> = if wPre.len() == 1 {
                        seq![EventV::End]
                    } else {
                        Seq::<EventV>::empty()
                    };
                    assert(actionViews(evs@) =~= emitted + ended);
                    assert(!trPre.contains(EventV::Update(path@))) by {
                        if trPre.contains(EventV::Update(path@)) {
                            let j = choose|j: int|
                                0 <= j < trPre.len() && trPre[j] == EventV::Update(path@);
                            assert(trPre[j] is Update);
                            assert(!wPre.contains(trPre[j]->Update_0));
                        }
                    }
                    assert forall|a: int, b: int|
                        0 <= a < b < self.traceView().len() && self.traceView()[a] is Update
                            && self.traceView()[b] is Update implies self.traceView()[a]
                        != self.traceView()[b] by {
                        if b >= trPre.len() {
                            assert(self.traceView()[b] == EventV::Update(path@));
                            assert(a < trPre.len());
                            if self.traceView()[a] == EventV::Update(path@) {
                                assert(trPre.contains(EventV::Update(path@)));
                            }
                        }
                    }
                }
                evs
            },
        }
    }
}

/// Resolve one directory listing synchronously: open the request, complete
/// every reserved path with the image the caller's decoder yields for it
/// (`icons[i]` belongs to `paths[i]`), and collect the whole event stream.
///
/// The collected trace is always well ordered; against a fresh cache and a
/// listing without duplicates, exactly the genuine (non-placeholder) icons
/// produce an update event each.
pub fn runRequest(
    cache: &mut GlobalIcons,
    paths: &Vec<String>,
    icons: &Vec<Arc<RgbImg>>,
    now: u64,
) -> (evs: Vec<FileLoaderAction>)
    requires
        old(cache).wf(),
        old(cache).spec_generation() < u64::MAX,
        icons@.len() == paths@.len(),
        forall|k: Seq<char>|
            viewsOf(paths@).contains(k) ==> !(old(cache).entries().contains_key(k) && old(
                cache,
            ).entries()[k] is Loading),
    ensures
        final(cache).wf(),
        wellOrdered(actionViews(evs@)),
        (old(cache).entries() == Map::<Seq<char>, LoadStage>::empty() && (forall|i: int, j: int|
            0 <= i < j < paths@.len() ==> viewsOf(paths@)[i] != viewsOf(paths@)[j]))
            ==> updateCount(actionViews(evs@)) == genuineCount(icons@),
{
    let ghost init = old(cache).entries();
    let ghost pviews = viewsOf(paths@);
    let ghost st = scanFold(init, pviews, now);
    proof {
        lemma_scan_waiting_eq_dispatch(init, pviews, now);
        dispatchSingleFlightLaw(init, pviews, now);
    }
    let ghost clean = init == Map::<Seq<char>, LoadStage>::empty() && (forall|i: int, j: int|
        0 <= i < j < pviews.len() ==> pviews[i] != pviews[j]);
    proof {
        if clean {
            lemma_scan_fresh(pviews, now);
        }
    }
    let startResult = LoadCoordinator::start(cache, paths, now);
    let mut coordinator = startResult.0;
    let mut evs = startResult.1;
    let dispatch = startResult.2;
    proof {
        if st.waiting.len() == 0 {
            assert(actionViews(evs@) =~= seq![EventV::MakeUI] + st.evs + seq![EventV::End]);
        }
        if clean {
            assert(updateCount(actionViews(evs@)) == 0) by {
                assert(actionViews(evs@) =~= seq![EventV::MakeUI] + st.evs + (if st.waiting.len()
                    == 0 {
                    seq![EventV::End]
                } else {
                    Seq::<EventV>::empty()
                }));
                lemma_updateCount_concat(seq![EventV::MakeUI] + st.evs, (if st.waiting.len()
                    == 0 {
                    seq![EventV::End]
                } else {
                    Seq::<EventV>::empty()
                }));
                lemma_updateCount_concat(seq![EventV::MakeUI], st.evs);
                assert(seq![EventV::MakeUI].drop_last() =~= Seq::<EventV>::empty());
                assert(seq![EventV::End].drop_last() =~= Seq::<EventV>::empty());
            }
            assert(genuineCount(icons@.take(0)) == 0) by {
                assert(icons@.take(0) =~= Seq::<Arc<RgbImg>>::empty());
            }
        }
    }
    let mut k: usize = 0;
    proof {
        assert(st.dispatch.skip(0) =~= st.dispatch);
    }
    while k < dispatch.len()
        invariant
            k <= dispatch.len(),
            icons@.len() == paths@.len(),
            pviews == viewsOf(paths@),
            st == scanFold(init, pviews, now),
            st.waiting == st.dispatch,
            viewsOf(dispatch@) == st.dispatch,
            forall|i: int, j: int|
                0 <= i < j < st.dispatch.len() ==> st.dispatch[i] != st.dispatch[j],
            forall|i: int| 0 <= i < st.dispatch.len() ==> pviews.contains(#[trigger] st.dispatch[i]),
            cache.wf(),
            cache.spec_generation() == coordinator.spec_generation(),
            coordinator.wf(),
            coordinator.waitingViews().to_set() == st.dispatch.skip(k as int).to_set(),
            coordinator.waitingViews().len() == st.dispatch.len() - k,
            coordinator.isDone() == (coordinator.waitingViews().len() == 0),
            coordinator.traceView() == actionViews(evs@),
            clean ==> st.dispatch == pviews,
            clean ==> updateCount(actionViews(evs@)) == genuineCount(icons@.take(k as int)),
        decreases dispatch.len() - k,
    {
        let p = &dispatch[k];
        let j = match findString(paths, p) {
            Some(j) => j,
            None => {
                proof {
                    assert(viewsOf(dispatch@)[k as int] == p@);
                    assert(st.dispatch[k as int] == p@);
                    assert(pviews.contains(p@));
                }
                0
            },
        };
        proof {
            if clean {
                assert(pviews[j as int] == pviews[k as int]);
                if j != k {
                    assert(false);
                }
            }
        }
        let icon = cloneArc(&icons[j]);
        cache.complete(p.as_str(), icon, now);
        proof {
            assert(st.dispatch.skip(k as int)[0] == st.dispatch[k as int]);
            assert(st.dispatch.skip(k as int).contains(p@));
            assert(coordinator.waitingViews().to_set().contains(p@));
            assert(coordinator.waitingViews().contains(p@));
        }
        let ghost evsPre = evs@;
        let ghost coordPre = coordinator;
        let mut more = coordinator.handleCompletion(cache, p, &icons[j]);
        let ghost moreViews = more@;
        evs.append(&mut more);
        proof {
            let ghost wPre = coordPre.waitingViews();
            assert(evs@ == evsPre + moreViews);
            assert(actionViews(evs@) =~= actionViews(evsPre) + actionViews(moreViews));
            assert(coordinator.traceView() == actionViews(evs@));
            // the waiting set stepped from the k-suffix to the (k+1)-suffix
            assert(coordinator.waitingViews().to_set() =~= st.dispatch.skip(k + 1).to_set()) by {
                assert forall|x: Seq<char>| st.dispatch.skip(k + 1).to_set().contains(x) implies
                    coordinator.waitingViews().to_set().contains(x) by {
                    let i = choose|i: int|
                        0 <= i < st.dispatch.skip(k + 1).len() && #[trigger] st.dispatch.skip(
                            k + 1,
                        )[i] == x;
                    assert(st.dispatch[k + 1 + i] == x);
                    assert(st.dispatch.skip(k as int)[i + 1] == x);
                    assert(st.dispatch.skip(k as int).contains(x));
                    assert(x != p@);
                }
                assert forall|x: Seq<char>| coordinator.waitingViews().to_set().contains(x)
                    implies st.dispatch.skip(k + 1).to_set().contains(x) by {
                    assert(wPre.to_set().remove(p@).contains(x));
                    assert(st.dispatch.skip(k as int).to_set().contains(x));
                    let i = choose|i: int|
                        0 <= i < st.dispatch.skip(k as int).len() && #[trigger] st.dispatch.skip(
                            k as int,
                        )[i] == x;
                    assert(st.dispatch[k + i] == x);
                    assert(i != 0);
                    assert(st.dispatch.skip(k + 1)[i - 1] == x);
                    assert(st.dispatch.skip(k + 1).contains(x));
                }
            }
            // count the update this completion contributed, if any
            let emitted: Seq<EventV> = if emitsUpdate(
                cache.spec_generation(),
                coordPre.spec_generation(),
                icons@[j as int]@,
            ) {
                seq![EventV::Update(p@)]
            } else {
                Seq::<EventV>::empty()
            };
            let ended: Seq<EventV> = if wPre.len() == 1 {
                seq![EventV::End]
            } else {
                Seq::<EventV>::empty()
            };
            assert(actionViews(moreViews) == emitted + ended);
            if clean {
                lemma_updateCount_concat(actionViews(evsPre), actionViews(moreViews));
                lemma_updateCount_concat(emitted, ended);
                assert(seq![EventV::Update(p@)].drop_last() =~= Seq::<EventV>::empty());
                assert(seq![EventV::End].drop_last() =~= Seq::<EventV>::empty());
                assert(updateCount(Seq::<EventV>::empty()) == 0);
                assert(updateCount(seq![EventV::End]) == 0) by {
                    assert(seq![EventV::End].last() == EventV::End);
                    assert(seq![EventV::End].drop_last() =~= Seq::<EventV>::empty());
                }
                assert(updateCount(seq![EventV::Update(p@)]) == 1) by {
                    assert(seq![EventV::Update(p@)].last() == EventV::Update(p@));
                    assert(seq![EventV::Update(p@)].drop_last() =~= Seq::<EventV>::empty());
                }
                assert(updateCount(ended) == 0);
                assert(icons@.take(k + 1).drop_last() =~= icons@.take(k as int));
                assert(icons@.take(k + 1).last() == icons@[k as int]);
                assert(updateCount(emitted) == if icons@[k as int]@.isDefault {
                    0int
                } else {
                    1int
                });
            }
        }
        k = k + 1;
    }
    proof {
        assert(coordinator.isDone());
        eventOrderingLaw(&coordinator);
        if clean {
            assert(icons@.take(dispatch@.len() as int) =~= icons@);
        }
    }
    evs
}

/// Number of genuine (non-placeholder) images in a decode result list.
pub open spec fn genuineCount(icons: Seq<Arc<RgbImg>>) -> int
    decreases icons.len(),
{
    if icons.len() == 0 {
        0
    } else {
        genuineCount(icons.drop_last()) + if icons.last()@.isDefault {
            0int
        } else {
            1int
        }
    }
}

/// Update counting distributes over trace concatenation.
pub proof fn lemma_updateCount_concat(a: Seq<EventV>, b: Seq<EventV>)
    ensures
        updateCount(a + b) == updateCount(a) + updateCount(b),
    decreases b.len(),
{
    if b.len() == 0 {
        assert(a + b =~= a);
    } else {
        lemma_updateCount_concat(a, b.drop_last());
        assert((a + b).drop_last() =~= a + b.drop_last());
        assert((a + b).last() == b.last());
    }
}

/// Law: event ordering — when a request has finished, its whole trace is
/// well ordered: `MakeUI` came first and only first, `End` came last and
/// only once, and no path was updated twice.
pub proof fn eventOrderingLaw(c: &LoadCoordinator)
    requires
        c.wf(),
        c.isDone(),
    ensures
        wellOrdered(c.traceView()),
{
    assert(c.traceView().last() == EventV::End);
    assert(c.traceView()[0] == EventV::MakeUI);
    if c.traceView().len() == 1 {
        assert(c.traceView()[0] == c.traceView().last());
        assert(false);
    }
}

/// Law: generation fencing — a request whose generation is no longer the
/// cache's current one emits no update, whatever image its decode returns;
/// `handleCompletion` emits only under `emitsUpdate`.
pub proof fn generationFencingLaw(cacheGeneration: u64, requestGeneration: u64, image: RgbImgV)
    requires
        requestGeneration != cacheGeneration,
    ensures
        !emitsUpdate(cacheGeneration, requestGeneration, image),
{
}

/// Facts the scan guarantees about what it dispatches: only paths that were
/// absent when scanned, each at most once, each drawn from the listing, and
/// the cache only ever grows.
pub proof fn dispatchSingleFlightLaw(
    init: Map<Seq<char>, LoadStage>,
    paths: Seq<Seq<char>>,
    now: u64,
)
    ensures
        ({
            let st = scanFold(init, paths, now);
            &&& (forall|i: int|
                0 <= i < st.dispatch.len() ==> !init.contains_key(#[trigger] st.dispatch[i]))
            &&& (forall|i: int, j: int|
                0 <= i < j < st.dispatch.len() ==> st.dispatch[i] != st.dispatch[j])
            &&& (forall|i: int| 0 <= i < st.dispatch.len() ==> paths.contains(st.dispatch[i]))
            &&& (forall|i: int|
                0 <= i < st.dispatch.len() ==> st.entries.contains_key(#[trigger] st.dispatch[i])
                    && st.entries[st.dispatch[i]] is Loading)
            &&& (forall|k: Seq<char>|
                init.contains_key(k) ==> #[trigger] st.entries.contains_key(k))
        }),
    decreases paths.len(),
{
    if paths.len() > 0 {
        dispatchSingleFlightLaw(init, paths.drop_last(), now);
        let stp = scanFold(init, paths.drop_last(), now);
        let st = scanFold(init, paths, now);
        let p = paths.last();
        assert forall|i: int| 0 <= i < st.dispatch.len() implies paths.contains(
            #[trigger] st.dispatch[i],
        ) by {
            if i < stp.dispatch.len() {
                assert(paths.drop_last().contains(stp.dispatch[i]));
                let j = choose|j: int|
                    0 <= j < paths.drop_last().len() && paths.drop_last()[j] == stp.dispatch[i];
                assert(paths[j] == st.dispatch[i]);
            } else {
                assert(st.dispatch[i] == p);
                assert(paths[paths.len() - 1] == p);
            }
        }
    }
}

/// The scan of a listing with no already-loading path awaits exactly what
/// it dispatches.
pub proof fn lemma_scan_waiting_eq_dispatch(
    init: Map<Seq<char>, LoadStage>,
    paths: Seq<Seq<char>>,
    now: u64,
)
    requires
        forall|k: Seq<char>|
            paths.contains(k) ==> !(init.contains_key(k) && init[k] is Loading),
    ensures
        ({
            let st = scanFold(init, paths, now);
            &&& st.waiting == st.dispatch
            &&& (forall|k: Seq<char>|
                st.entries.contains_key(k) && #[trigger] st.entries[k] is Loading && !(
                init.contains_key(k) && init[k] is Loading) ==> st.waiting.contains(k))
        }),
    decreases paths.len(),
{
    if paths.len() > 0 {
        assert forall|k: Seq<char>| paths.drop_last().contains(k) implies !(init.contains_key(k)
            && init[k] is Loading) by {
            let j = choose|j: int|
                0 <= j < paths.drop_last().len() && paths.drop_last()[j] == k;
            assert(paths[j] == k);
            assert(paths.contains(k));
        }
        lemma_scan_waiting_eq_dispatch(init, paths.drop_last(), now);
        let stp = scanFold(init, paths.drop_last(), now);
        let st = scanFold(init, paths, now);
        let p = paths.last();
        assert(paths[paths.len() - 1] == p);
        assert(paths.contains(p));
        if !stp.entries.contains_key(p) {
            assert(st.waiting == stp.waiting.push(p));
            assert forall|k: Seq<char>|
                st.entries.contains_key(k) && #[trigger] st.entries[k] is Loading && !(
                init.contains_key(k) && init[k] is Loading) implies st.waiting.contains(k) by {
                if k == p {
                    assert(st.waiting[st.waiting.len() - 1] == p);
                } else {
                    assert(stp.waiting.contains(k));
                    let j = choose|j: int|
                        0 <= j < stp.waiting.len() && stp.waiting[j] == k;
                    assert(st.waiting[j] == k);
                }
            }
        } else if stp.entries[p] is Loading {
            assert(stp.waiting.contains(p));
            assert(st.waiting == stp.waiting);
        } else {
            assert(st.waiting == stp.waiting);
            assert forall|k: Seq<char>|
                st.entries.contains_key(k) && #[trigger] st.entries[k] is Loading && !(
                init.contains_key(k) && init[k] is Loading) implies st.waiting.contains(k) by {
                assert(k != p);
                assert(stp.entries[k] is Loading);
            }
        }
    }
}

/// The scan of a distinct listing against an empty cache reserves every
/// path, awaits every path, and owes no update yet.
pub proof fn lemma_scan_fresh(paths: Seq<Seq<char>>, now: u64)
    requires
        forall|i: int, j: int| 0 <= i < j < paths.len() ==> paths[i] != paths[j],
    ensures
        ({
            let st = scanFold(Map::<Seq<char>, LoadStage>::empty(), paths, now);
            &&& st.dispatch == paths
            &&& st.evs == Seq::<EventV>::empty()
            &&& (forall|k: Seq<char>|
                #[trigger] st.entries.contains_key(k) ==> paths.contains(k))
        }),
    decreases paths.len(),
{
    if paths.len() > 0 {
        lemma_scan_fresh(paths.drop_last(), now);
        let stp = scanFold(Map::<Seq<char>, LoadStage>::empty(), paths.drop_last(), now);
        let st = scanFold(Map::<Seq<char>, LoadStage>::empty(), paths, now);
        let p = paths.last();
        assert(!stp.entries.contains_key(p)) by {
            if stp.entries.contains_key(p) {
                assert(paths.drop_last().contains(p));
                let j = choose|j: int|
                    0 <= j < paths.drop_last().len() && paths.drop_last()[j] == p;
                assert(paths[j] == p);
                assert(paths[paths.len() - 1] == p);
            }
        }
        assert(st.dispatch =~= paths);
        assert forall|k: Seq<char>| #[trigger] st.entries.contains_key(k) implies paths.contains(
            k,
        ) by {
            if k == p {
                assert(paths[paths.len() - 1] == p);
            } else {
                assert(stp.entries.contains_key(k));
                assert(paths.drop_last().contains(k));
                let j = choose|j: int|
                    0 <= j < paths.drop_last().len() && paths.drop_last()[j] == k;
                assert(paths[j] == k);
            }
        }
    } else {
        assert(scanFold(Map::<Seq<char>, LoadStage>::empty(), paths, now).dispatch =~= paths);
    }
}

/// The paths of the update events of a trace, in order.
pub open spec fn updatePathsOf(t: Seq<EventV>) -> Seq<Seq<char>>
    decreases t.len(),
{
    if t.len() == 0 {
        Seq::empty()
    } else {
        updatePathsOf(t.drop_last()) + (match t.last() {
            EventV::Update(p) => seq![p],
            _ => Seq::<Seq<char>>::empty(),
        })
    }
}

/// A trace holds an update for a path exactly when that path is among its
/// update paths.
pub proof fn lemma_updatePaths_contains(t: Seq<EventV>, p: Seq<char>)
    ensures
        t.contains(EventV::Update(p)) <==> updatePathsOf(t).contains(p),
    decreases t.len(),
{
    if t.len() > 0 {
        let tp = t.drop_last();
        lemma_updatePaths_contains(tp, p);
        let up = updatePathsOf(tp);
        let u = updatePathsOf(t);
        if t.contains(EventV::Update(p)) {
            let i = choose|i: int| 0 <= i < t.len() && t[i] == EventV::Update(p);
            if i < t.len() - 1 {
                assert(tp[i] == EventV::Update(p));
                assert(tp.contains(EventV::Update(p)));
                let j = choose|j: int| 0 <= j < up.len() && up[j] == p;
                assert(u[j] == p);
                assert(u.contains(p));
            } else {
                assert(t.last() == EventV::Update(p));
                assert(u[up.len() as int] == p);
                assert(u.contains(p));
            }
        }
        if u.contains(p) {
            let j = choose|j: int| 0 <= j < u.len() && u[j] == p;
            if j < up.len() {
                assert(up[j] == p);
                assert(up.contains(p));
                let i = choose|i: int| 0 <= i < tp.len() && tp[i] == EventV::Update(p);
                assert(t[i] == EventV::Update(p));
                assert(t.contains(EventV::Update(p)));
            } else {
                assert(t.last() == EventV::Update(p));
                assert(t[t.len() - 1] == EventV::Update(p));
                assert(t.contains(EventV::Update(p)));
            }
        }
    }
}

/// Index of the first string with the given view, if any.
fn findString(v: &Vec<String>, s: &String) -> (r: Option<usize>)
    ensures
        match r {
            Some(i) => i < v@.len() && viewsOf(v@)[i as int] == s@ && (forall|j: int|
                0 <= j < i ==> viewsOf(v@)[j] != s@),
            None => !viewsOf(v@).contains(s@),
        },
{
    let mut i: usize = 0;
    while i < v.len()
        invariant
            i <= v.len(),
            forall|j: int| 0 <= j < i ==> viewsOf(v@)[j] != s@,
        decreases v.len() - i,
    {
        if v[i].eq(s) {
            proof {
                assert(viewsOf(v@)[i as int] == s@);
            }
            return Some(i);
        }
        i = i + 1;
    }
    None
}

/// Whether a vector of strings holds one with the given view.
fn vecContainsString(v: &Vec<String>, s: &String) -> (r: bool)
    ensures
        r == viewsOf(v@).contains(s@),
{
    let mut i: usize = 0;
    while i < v.len()
        invariant
            i <= v.len(),
            forall|j: int| 0 <= j < i ==> viewsOf(v@)[j] != s@,
        decreases v.len() - i,
    {
        if v[i].eq(s) {
            proof {
                assert(viewsOf(v@)[i as int] == s@);
            }
            return true;
        }
        i = i + 1;
    }
    false
}

} // verus!
