//! The assets on which a scene depends, and keeping track of their loading.
//!
//! The engine loads assets in the background. Once per tick its state for
//! every load in flight is reported here; a load that has ended leaves the
//! list, and a scene document that has arrived brings in the files that its
//! own objects need. A path is asked for once only, so documents that refer
//! to each other in a circle do not keep each other in flight.

use crate::document::{lemma_keys_below, Ron};
use crate::objects::ObjectView;
use crate::spawn::LoadError;
use vstd::prelude::*;
use vstd::set_lib::lemma_subset_equality;

verus! {

/// The state of a load, as the engine reports it.
#[derive(Clone, Copy, Debug, PartialEq, Eq, Structural)]
pub enum LoadState {
    NotLoaded,
    Loading,
    Loaded,
    Failed,
    Unloaded,
}

impl LoadState {
    /// Whether the load is still in flight. A failed load is over: it is not
    /// tried again.
    pub open spec fn in_flight(self) -> bool {
        !(self is Loaded) && !(self is Failed)
    }
}

/// The strings as mathematical values.
pub open spec fn paths_view(paths: Seq<String>) -> Seq<Seq<char>> {
    paths.map_values(|path: String| path@)
}

/// The paths that the objects with keys below `bound` have to load, by key.
pub open spec fn dependency_paths(objects: Map<usize, ObjectView>, bound: nat) -> Seq<Seq<char>>
    decreases bound,
{
    if bound == 0 {
        Seq::empty()
    } else {
        let front = dependency_paths(objects, (bound - 1) as nat);
        match objects[(bound - 1) as usize].load_path() {
            Some(path) => front.push(path),
            None => front,
        }
    }
}

/// Lists the paths that the objects of a document have to load: one for each
/// object that is backed by a file, in the order of the object keys.
pub fn dependencies(doc: &Ron) -> (r: Result<Vec<String>, LoadError>)
    ensures
        match r {
            Ok(paths) => doc@.objects_dense() && paths_view(paths@) == dependency_paths(
                doc@.objects,
                doc@.objects.dom().len(),
            ),
            Err(e) => !doc@.objects_dense() && e == LoadError::ObjectKeys,
        },
{
    let count = doc.object_count();
    let mut paths: Vec<String> = Vec::new();
    let mut k: usize = 0;
    while k < count
        invariant
            0 <= k <= count,
            doc@.objects.dom().finite(),
            count == doc@.objects.dom().len(),
            forall|i: usize| i < k ==> doc@.objects.contains_key(i),
            paths_view(paths@) == dependency_paths(doc@.objects, k as nat),
        decreases count - k,
    {
        match doc.object(k) {
            None => {
                return Err(LoadError::ObjectKeys);
            },
            Some(object) => {
                let ghost before = paths_view(paths@);
                match object.load_path() {
                    Some(path) => {
                        paths.push(path);
                        assert(paths_view(paths@) =~= before.push(path@));
                    },
                    None => {},
                }
            },
        }
        k += 1;
    }
    proof {
        lemma_keys_below(count);
        let below = Set::new(|i: usize| i < count);
        assert(below.subset_of(doc@.objects.dom()));
        lemma_subset_equality(below, doc@.objects.dom());
    }
    Ok(paths)
}

/// What the engine says of one load in flight.
#[derive(Clone, Debug, PartialEq, Eq)]
pub struct LoadReport {
    pub state: LoadState,
    /// Where the asset is a scene document that has arrived: the paths that
    /// its objects have to load. Empty otherwise.
    pub nested: Vec<String>,
}

/// A report as a mathematical value.
pub struct LoadReportView {
    pub state: LoadState,
    pub nested: Seq<Seq<char>>,
}

impl View for LoadReport {
    type V = LoadReportView;

    open spec fn view(&self) -> LoadReportView {
        LoadReportView { state: self.state, nested: paths_view(self.nested@) }
    }
}

/// The reports as mathematical values.
pub open spec fn reports_view(reports: Seq<LoadReport>) -> Seq<LoadReportView> {
    reports.map_values(|report: LoadReport| report@)
}

/// The loads in flight.
#[derive(Clone, Debug, PartialEq, Eq)]
pub struct LoadedObjects {
    /// The paths whose load is in flight, in the order in which they were
    /// asked for.
    pub handles: Vec<String>,
    /// Every path that was ever asked for.
    pub requested: Vec<String>,
}

/// The loads in flight as a mathematical value.
pub struct LoadedObjectsView {
    pub handles: Seq<Seq<char>>,
    pub requested: Seq<Seq<char>>,
}

impl View for LoadedObjects {
    type V = LoadedObjectsView;

    open spec fn view(&self) -> LoadedObjectsView {
        LoadedObjectsView {
            handles: paths_view(self.handles@),
            requested: paths_view(self.requested@),
        }
    }
}

/// The state that the engine reports for the load at place `i`. A load
/// without a report counts as still loading.
pub open spec fn state_at(reports: Seq<LoadReportView>, i: int) -> LoadState {
    if 0 <= i < reports.len() {
        reports[i].state
    } else {
        LoadState::Loading
    }
}

/// The first `bound` loads that stay in flight, in their order.
pub open spec fn still_pending(
    handles: Seq<Seq<char>>,
    reports: Seq<LoadReportView>,
    bound: nat,
) -> Seq<Seq<char>>
    decreases bound,
{
    if bound == 0 {
        Seq::empty()
    } else {
        let front = still_pending(handles, reports, (bound - 1) as nat);
        if state_at(reports, bound - 1).in_flight() {
            front.push(handles[bound - 1])
        } else {
            front
        }
    }
}

/// The paths that the documents among the first `bound` loads bring in, in
/// the order of the loads.
pub open spec fn fan_out(reports: Seq<LoadReportView>, bound: nat) -> Seq<Seq<char>>
    decreases bound,
{
    if bound == 0 {
        Seq::empty()
    } else {
        let front = fan_out(reports, (bound - 1) as nat);
        if bound - 1 < reports.len() && reports[bound - 1].state is Loaded {
            front + reports[bound - 1].nested
        } else {
            front
        }
    }
}

/// Those of the candidates that were not asked for before, each once, in
/// their order.
pub open spec fn fresh(requested: Seq<Seq<char>>, candidates: Seq<Seq<char>>) -> Seq<Seq<char>>
    decreases candidates.len(),
{
    if candidates.len() == 0 {
        Seq::empty()
    } else {
        let front = fresh(requested, candidates.drop_last());
        let path = candidates.last();
        if requested.contains(path) || front.contains(path) {
            front
        } else {
            front.push(path)
        }
    }
}

/// The loads in flight after one round of reports: those that are still in
/// flight, followed by the fresh paths that arrived documents bring in.
pub open spec fn after_reports(
    loads: LoadedObjectsView,
    reports: Seq<LoadReportView>,
) -> LoadedObjectsView {
    let started = fresh(loads.requested, fan_out(reports, loads.handles.len()));
    LoadedObjectsView {
        handles: still_pending(loads.handles, reports, loads.handles.len()) + started,
        requested: loads.requested + started,
    }
}

/// Whether a path stands in a list.
fn contains_path(paths: &Vec<String>, path: &String) -> (r: bool)
    ensures
        r == paths_view(paths@).contains(path@),
{
    let mut i: usize = 0;
    while i < paths.len()
        invariant
            0 <= i <= paths.len(),
            forall|j: int| 0 <= j < i ==> paths_view(paths@)[j] != path@,
        decreases paths.len() - i,
    {
        if paths[i] == *path {
            assert(paths_view(paths@)[i as int] == path@);
            return true;
        }
        i += 1;
    }
    false
}

impl LoadedObjects {
    /// No load in flight, nothing asked for.
    pub fn new() -> (r: Self)
        ensures
            r@.handles == Seq::<Seq<char>>::empty(),
            r@.requested == Seq::<Seq<char>>::empty(),
    {
        let r = LoadedObjects { handles: Vec::new(), requested: Vec::new() };
        assert(r@.handles =~= Seq::<Seq<char>>::empty());
        assert(r@.requested =~= Seq::<Seq<char>>::empty());
        r
    }

    /// Takes note of a path that is asked for. Returns whether its load has
    /// to be started: it has not when the path was asked for before.
    pub fn process_load_object(&mut self, path: &str) -> (start: bool)
        ensures
            start == !old(self)@.requested.contains(path@),
            start ==> final(self)@.handles == old(self)@.handles.push(path@),
            start ==> final(self)@.requested == old(self)@.requested.push(path@),
            !start ==> final(self)@ == old(self)@,
    {
        let owned = path.to_owned();
        if contains_path(&self.requested, &owned) {
            false
        } else {
            let ghost handles = self@.handles;
            let ghost requested = self@.requested;
            self.handles.push(owned.clone());
            self.requested.push(owned);
            assert(self@.handles =~= handles.push(path@));
            assert(self@.requested =~= requested.push(path@));
            true
        }
    }

    /// The number of loads in flight.
    pub fn in_flight(&self) -> (n: usize)
        ensures
            n == self@.handles.len(),
    {
        self.handles.len()
    }

    /// Takes one round of reports, `reports[i]` for the load `handles[i]`.
    /// Loads that have arrived or failed leave the list. The paths that
    /// arrived documents bring in join it, unless they were asked for before.
    /// Returns the paths whose load has to be started.
    pub fn check_load_objects_complete(&mut self, reports: &Vec<LoadReport>) -> (started: Vec<
        String,
    >)
        ensures
            final(self)@ == after_reports(old(self)@, reports_view(reports@)),
            paths_view(started@) == fresh(
                old(self)@.requested,
                fan_out(reports_view(reports@), old(self)@.handles.len()),
            ),
    {
        let ghost loads = self@;
        let ghost seen = reports_view(reports@);
        let count = self.handles.len();
        let mut kept: Vec<String> = Vec::new();
        let mut arrived: Vec<String> = Vec::new();
        let mut i: usize = 0;
        while i < count
            invariant
                0 <= i <= count,
                count == self.handles.len(),
                self@ == loads,
                seen == reports_view(reports@),
                paths_view(kept@) == still_pending(loads.handles, seen, i as nat),
                paths_view(arrived@) == fan_out(seen, i as nat),
            decreases count - i,
        {
            let state = if i < reports.len() {
                reports[i].state
            } else {
                LoadState::Loading
            };
            assert(state == state_at(seen, i as int));
            match state {
                LoadState::Loaded => {
                    if i < reports.len() {
                        let nested = &reports[i].nested;
                        let ghost before = paths_view(arrived@);
                        let mut j: usize = 0;
                        while j < nested.len()
                            invariant
                                0 <= j <= nested.len(),
                                paths_view(arrived@) == before + paths_view(nested@).take(j as int),
                            decreases nested.len() - j,
                        {
                            let ghost so_far = paths_view(arrived@);
                            arrived.push(nested[j].clone());
                            assert(paths_view(arrived@) =~= so_far.push(nested@[j as int]@));
                            assert(paths_view(nested@).take(j + 1) =~= paths_view(nested@).take(
                                j as int,
                            ).push(nested@[j as int]@));
                            j += 1;
                        }
                        assert(paths_view(nested@).take(j as int) =~= paths_view(nested@));
                        assert(seen[i as int].nested == paths_view(nested@));
                    }
                },
                LoadState::Failed => {},
                _ => {
                    let ghost before = paths_view(kept@);
                    kept.push(self.handles[i].clone());
                    assert(paths_view(kept@) =~= before.push(loads.handles[i as int]));
                },
            }
            i += 1;
        }
        let mut started: Vec<String> = Vec::new();
        let mut j: usize = 0;
        let ghost pending = paths_view(kept@);
        while j < arrived.len()
            invariant
                0 <= j <= arrived.len(),
                loads.requested + paths_view(started@) == paths_view(self.requested@),
                paths_view(started@) == fresh(loads.requested, paths_view(arrived@).take(j as int)),
                paths_view(kept@) == pending + paths_view(started@),
            decreases arrived.len() - j,
        {
            let ghost front = paths_view(started@);
            proof {
                assert(paths_view(arrived@).take(j + 1).drop_last() =~= paths_view(arrived@).take(
                    j as int,
                ));
                assert(paths_view(arrived@).take(j + 1).last() == arrived@[j as int]@);
                lemma_contains_concat(loads.requested, front, arrived@[j as int]@);
            }
            if !contains_path(&self.requested, &arrived[j]) {
                let ghost requested = paths_view(self.requested@);
                let ghost in_flight = paths_view(kept@);
                self.requested.push(arrived[j].clone());
                kept.push(arrived[j].clone());
                started.push(arrived[j].clone());
                proof {
                    let path = arrived@[j as int]@;
                    assert(paths_view(self.requested@) =~= requested.push(path));
                    assert(paths_view(kept@) =~= in_flight.push(path));
                    assert(paths_view(started@) =~= front.push(path));
                    assert(loads.requested + front.push(path) =~= (loads.requested + front).push(
                        path,
                    ));
                    assert(pending + front.push(path) =~= (pending + front).push(path));
                }
            }
            j += 1;
        }
        assert(paths_view(arrived@).take(j as int) =~= paths_view(arrived@));
        self.handles = kept;
        started
    }
}

/// A value stands in a concatenation when it stands in a part.
pub proof fn lemma_contains_concat(a: Seq<Seq<char>>, b: Seq<Seq<char>>, x: Seq<char>)
    ensures
        (a + b).contains(x) <==> a.contains(x) || b.contains(x),
{
    if a.contains(x) {
        let i = choose|i: int| 0 <= i < a.len() && a[i] == x;
        assert((a + b)[i] == x);
    }
    if b.contains(x) {
        let i = choose|i: int| 0 <= i < b.len() && b[i] == x;
        assert((a + b)[a.len() + i] == x);
    }
    if (a + b).contains(x) {
        let i = choose|i: int| 0 <= i < (a + b).len() && (a + b)[i] == x;
        if i < a.len() {
            assert(a[i] == x);
        } else {
            assert(b[i - a.len()] == x);
        }
    }
}

} // verus!
