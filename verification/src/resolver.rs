//! The dependency resolver: walks the dependency graph rooted at a requested
//! mod id, for one target version, downloading each required file at most
//! once, using the registry as a cache.
//!
//! The walk is an iterative step machine over an explicit stack and a visited
//! set, so traversal depth is bounded by the heap and a cyclic graph cannot
//! grow the call stack.  Each step either finishes, asks the caller to fetch
//! a missing piece of metadata, or yields a concrete download request.  A
//! verified driver over an in-memory catalog is in this module; the
//! surrounding application drives the same machine against the remote
//! catalog.

use crate::catalog::Catalog;
use crate::records::{
    propagate_targets, request_for, DependencyEdge, DownloadRequest, FileRecord, FileRecordView,
    FileRef, FileRefView, ModRecordView,
};
use crate::registry::{
    ids_of, lemma_map_of_contains, lemma_map_of_dom, lemma_sorted_ids_no_duplicates, map_of,
    sorted_by_id, Registry,
};
use vstd::prelude::*;
use vstd::seq_lib::seq_to_set_is_finite;
use vstd::set_lib::{lemma_len_subset, lemma_len_union};

verus! {

/// A mod skipped because it has no file for the requested version: recorded
/// in the report, resolution continues.
#[derive(Debug)]
pub struct SoftWarning {
    pub mod_id: u32,
    pub version: String,
}

#[verifier::ext_equal]
pub ghost struct SoftWarningView {
    pub mod_id: u32,
    pub version: Seq<char>,
}

impl View for SoftWarning {
    type V = SoftWarningView;

    open spec fn view(&self) -> SoftWarningView {
        SoftWarningView { mod_id: self.mod_id, version: self.version@ }
    }
}

impl DeepView for SoftWarning {
    type V = SoftWarningView;

    open spec fn deep_view(&self) -> SoftWarningView {
        self.view()
    }
}

/// A mod whose record stores only a file pointer for the target version: the
/// concrete file record must be fetched before the download can be issued.
#[derive(Clone, Copy, Debug, PartialEq, Eq, Structural)]
pub struct PendingFile {
    pub mod_id: u32,
    pub file_id: u32,
}

/// What one resolution step decided.
#[derive(Debug)]
pub enum Step {
    /// The stack is empty: the walk is complete.
    Finished,
    /// The popped id was already processed this resolution; nothing to do.
    AlreadyDone(u32),
    /// Cache miss: the caller must fetch this mod's record, put it in the
    /// registry, and step again (the id stays on the stack).
    NeedMod(u32),
    /// The record holds only a file pointer: the caller must fetch the file
    /// record and hand it to `provide_file`.
    NeedFile(PendingFile),
    /// A concrete file to stream to disk; its dependencies are now on the
    /// stack.
    Download(DownloadRequest),
    /// No file for the target version: a soft warning was recorded and the
    /// mod's dependencies are not traversed.
    Skipped(u32),
}

/// One resolution in progress: the explicit traversal stack, the visited set
/// that makes every mod processed at most once, and the report being built
/// (download requests issued, soft warnings recorded).
#[derive(Debug)]
pub struct Resolution {
    pub target_version: String,
    pub stack: Vec<u32>,
    pub visited: Vec<u32>,
    pub downloaded: Vec<u32>,
    pub requests: Vec<DownloadRequest>,
    pub warnings: Vec<SoftWarning>,
    pub pending: Option<PendingFile>,
}

impl Resolution {
    /// The ids of the mods skipped with a soft warning.
    pub open spec fn warned_ids(self) -> Seq<u32> {
        self.warnings.deep_view().map_values(|w: SoftWarningView| w.mod_id)
    }

    /// The resolution invariant: each id is visited at most once, the visited
    /// ids are exactly the downloaded ones and the warned ones, and the
    /// download trace carries one request per downloaded id, in order.
    pub open spec fn wf(self) -> bool {
        &&& self.visited@.no_duplicates()
        &&& self.downloaded@.no_duplicates()
        &&& self.warned_ids().no_duplicates()
        &&& forall|i: int|
            0 <= i < self.downloaded@.len() ==> self.visited@.contains(
                #[trigger] self.downloaded@[i],
            )
        &&& forall|i: int|
            0 <= i < self.warned_ids().len() ==> self.visited@.contains(
                #[trigger] self.warned_ids()[i],
            ) && !self.downloaded@.contains(self.warned_ids()[i])
        &&& self.visited@.to_set() == self.downloaded@.to_set().union(
            self.warned_ids().to_set(),
        )
        &&& self.requests.deep_view().len() == self.downloaded@.len()
        &&& forall|i: int|
            0 <= i < self.downloaded@.len() ==> (#[trigger] self.requests.deep_view()[i]).mod_id
                == self.downloaded@[i]
        &&& forall|i: int|
            0 <= i < self.warnings@.len() ==> (#[trigger] self.warnings.deep_view()[i]).version
                == self.target_version@
        &&& match self.pending {
            Some(p) => !self.visited@.contains(p.mod_id),
            None => true,
        }
    }

    /// Start a resolution for `root_id` and `target_version`.
    pub fn new(root_id: u32, target_version: String) -> (r: Resolution)
        ensures
            r.wf(),
            r.target_version@ == target_version@,
            r.stack@ == seq![root_id],
            r.visited@ == Seq::<u32>::empty(),
            r.downloaded@ == Seq::<u32>::empty(),
            r.requests.deep_view() == Seq::<crate::records::DownloadRequestView>::empty(),
            r.warnings.deep_view() == Seq::<SoftWarningView>::empty(),
            r.pending is None,
    {
        let mut stack: Vec<u32> = Vec::new();
        stack.push(root_id);
        let r = Resolution {
            target_version,
            stack,
            visited: Vec::new(),
            downloaded: Vec::new(),
            requests: Vec::new(),
            warnings: Vec::new(),
            pending: None,
        };
        proof {
            assert(r.stack@ =~= seq![root_id]);
            assert(r.requests.deep_view() =~= Seq::<crate::records::DownloadRequestView>::empty());
            assert(r.warnings.deep_view() =~= Seq::<SoftWarningView>::empty());
            assert(r.warned_ids() =~= Seq::<u32>::empty());
            assert(r.visited@.to_set() =~= r.downloaded@.to_set().union(r.warned_ids().to_set()));
        }
        r
    }

    /// Process the top of the stack: pop one id and decide what it needs.
    pub fn step(&mut self, registry: &Registry) -> (s: Step)
        requires
            old(self).wf(),
            old(self).pending is None,
            registry.wf(),
        ensures
            final(self).wf(),
            final(self).target_version == old(self).target_version,
            match s {
                Step::Finished => {
                    &&& old(self).stack@.len() == 0
                    &&& *final(self) == Resolution { stack: final(self).stack, ..*old(self) }
                    &&& final(self).stack@ == old(self).stack@
                },
                Step::AlreadyDone(id) => {
                    &&& old(self).stack@.len() > 0
                    &&& id == old(self).stack@.last()
                    &&& old(self).visited@.contains(id)
                    &&& *final(self) == Resolution {
                        stack: final(self).stack,
                        ..*old(self)
                    }
                    &&& final(self).stack@ == old(self).stack@.drop_last()
                },
                Step::NeedMod(id) => {
                    &&& old(self).stack@.len() > 0
                    &&& id == old(self).stack@.last()
                    &&& !old(self).visited@.contains(id)
                    &&& !registry.contains_id(id)
                    &&& *final(self) == Resolution { stack: final(self).stack, ..*old(self) }
                    &&& final(self).stack@ == old(self).stack@
                },
                Step::NeedFile(p) => {
                    &&& old(self).stack@.len() > 0
                    &&& p.mod_id == old(self).stack@.last()
                    &&& !old(self).visited@.contains(p.mod_id)
                    &&& registry.contains_id(p.mod_id)
                    &&& registry.to_map()[p.mod_id].file_ref(old(self).target_version@) == Some(
                        FileRefView::Pointer(p.file_id),
                    )
                    &&& *final(self) == Resolution {
                        stack: final(self).stack,
                        pending: Some(p),
                        ..*old(self)
                    }
                    &&& final(self).stack@ == old(self).stack@.drop_last()
                },
                Step::Download(req) => {
                    &&& old(self).stack@.len() > 0
                    &&& req@.mod_id == old(self).stack@.last()
                    &&& !old(self).visited@.contains(req@.mod_id)
                    &&& registry.contains_id(req@.mod_id)
                    &&& {
                        let file = embedded_file(*registry, req@.mod_id, old(self).target_version@);
                        &&& file is Some
                        &&& req@ == request_for(req@.mod_id, file.unwrap())
                        &&& final(self).stack@ == old(self).stack@.drop_last()
                            + propagate_targets(file.unwrap().dependencies)
                    }
                    &&& final(self).visited@ == old(self).visited@.push(req@.mod_id)
                    &&& final(self).downloaded@ == old(self).downloaded@.push(req@.mod_id)
                    &&& final(self).requests.deep_view() == old(self).requests.deep_view().push(
                        req@,
                    )
                    &&& final(self).warnings == old(self).warnings
                    &&& final(self).pending is None
                },
                Step::Skipped(id) => {
                    &&& old(self).stack@.len() > 0
                    &&& id == old(self).stack@.last()
                    &&& !old(self).visited@.contains(id)
                    &&& registry.contains_id(id)
                    &&& registry.to_map()[id].file_ref(old(self).target_version@) is None
                    &&& final(self).stack@ == old(self).stack@.drop_last()
                    &&& final(self).visited@ == old(self).visited@.push(id)
                    &&& final(self).downloaded == old(self).downloaded
                    &&& final(self).requests == old(self).requests
                    &&& final(self).warnings.deep_view() == old(self).warnings.deep_view().push(
                        SoftWarningView { mod_id: id, version: old(self).target_version@ },
                    )
                    &&& final(self).pending is None
                },
            },
    {
        let popped = self.stack.pop();
        match popped {
            None => Step::Finished,
            Some(id) => {
                if contains_id(&self.visited, id) {
                    Step::AlreadyDone(id)
                } else {
                    match registry.lookup(id) {
                        None => {
                            self.stack.push(id);
                            proof {
                                assert(self.stack@ =~= old(self).stack@);
                            }
                            Step::NeedMod(id)
                        },
                        Some(record) => {
                            match record.file_reference_for(&self.target_version) {
                                None => {
                                    let warning = SoftWarning {
                                        mod_id: id,
                                        version: self.target_version.clone(),
                                    };
                                    self.visited.push(id);
                                    self.warnings.push(warning);
                                    proof {
                                        assert(self.warnings.deep_view()
                                            =~= old(self).warnings.deep_view().push(
                                            SoftWarningView {
                                                mod_id: id,
                                                version: old(self).target_version@,
                                            },
                                        ));
                                        assert(self.stack@ =~= old(self).stack@.drop_last());
                                        self.lemma_after_skip(*old(self), id);
                                    }
                                    Step::Skipped(id)
                                },
                                Some(FileRef::Pointer(file_id)) => {
                                    let p = PendingFile { mod_id: id, file_id };
                                    self.pending = Some(p);
                                    Step::NeedFile(p)
                                },
                                Some(FileRef::Embedded(file)) => {
                                    let req = DownloadRequest::new(id, &file);
                                    let req_out = req.clone();
                                    self.visited.push(id);
                                    self.downloaded.push(id);
                                    self.requests.push(req);
                                    push_targets(&mut self.stack, &file.dependencies);
                                    proof {
                                        assert(self.requests.deep_view()
                                            =~= old(self).requests.deep_view().push(
                                            request_for(id, file@),
                                        ));
                                        assert(self.stack@ =~= old(self).stack@.drop_last()
                                            + propagate_targets(file@.dependencies));
                                        self.lemma_after_download(*old(self), id);
                                    }
                                    Step::Download(req_out)
                                },
                            }
                        },
                    }
                }
            },
        }
    }

    /// Hand back the file record fetched for the pending pointer; the
    /// download request for it is issued and its dependencies are queued.
    pub fn provide_file(&mut self, file: &FileRecord) -> (req: DownloadRequest)
        requires
            old(self).wf(),
            old(self).pending is Some,
        ensures
            final(self).wf(),
            final(self).target_version == old(self).target_version,
            req@ == request_for(old(self).pending.unwrap().mod_id, file@),
            final(self).stack@ == old(self).stack@ + propagate_targets(file@.dependencies),
            final(self).visited@ == old(self).visited@.push(old(self).pending.unwrap().mod_id),
            final(self).downloaded@ == old(self).downloaded@.push(
                old(self).pending.unwrap().mod_id,
            ),
            final(self).requests.deep_view() == old(self).requests.deep_view().push(req@),
            final(self).warnings == old(self).warnings,
            final(self).pending is None,
    {
        let p = self.pending.unwrap();
        self.pending = None;
        let req = DownloadRequest::new(p.mod_id, file);
        let req_out = req.clone();
        self.visited.push(p.mod_id);
        self.downloaded.push(p.mod_id);
        self.requests.push(req);
        push_targets(&mut self.stack, &file.dependencies);
        proof {
            assert(self.requests.deep_view() =~= old(self).requests.deep_view().push(
                request_for(old(self).pending.unwrap().mod_id, file@),
            ));
            self.lemma_after_download(
                Resolution { pending: None, ..*old(self) },
                old(self).pending.unwrap().mod_id,
            );
        }
        req_out
    }

    /// The invariant after recording a download for a fresh id.
    proof fn lemma_after_download(self, prev: Resolution, id: u32)
        requires
            prev.wf(),
            prev.pending is None,
            !prev.visited@.contains(id),
            self.target_version == prev.target_version,
            self.visited@ == prev.visited@.push(id),
            self.downloaded@ == prev.downloaded@.push(id),
            self.requests.deep_view().len() == prev.requests.deep_view().len() + 1,
            forall|i: int|
                0 <= i < prev.requests.deep_view().len() ==> self.requests.deep_view()[i]
                    == prev.requests.deep_view()[i],
            self.requests.deep_view().last().mod_id == id,
            self.warnings == prev.warnings,
            self.pending is None,
        ensures
            self.wf(),
    {
        lemma_push_to_set(prev.visited@, id);
        lemma_push_to_set(prev.downloaded@, id);
        lemma_push_no_duplicates(prev.visited@, id);
        assert(!prev.downloaded@.contains(id)) by {
            if prev.downloaded@.contains(id) {
                let i = choose|i: int|
                    0 <= i < prev.downloaded@.len() && prev.downloaded@[i] == id;
                assert(prev.visited@.contains(id));
            }
        }
        lemma_push_no_duplicates(prev.downloaded@, id);
        assert(self.warned_ids() == prev.warned_ids());
        assert forall|i: int|
            0 <= i < self.downloaded@.len() implies self.visited@.contains(
            #[trigger] self.downloaded@[i],
        ) by {
            if i < prev.downloaded@.len() {
                assert(prev.visited@.contains(prev.downloaded@[i]));
                lemma_push_contains(prev.visited@, id, prev.downloaded@[i]);
            } else {
                assert(self.visited@.last() == id);
            }
        }
        assert forall|i: int|
            0 <= i < self.warned_ids().len() implies self.visited@.contains(
            #[trigger] self.warned_ids()[i],
        ) && !self.downloaded@.contains(self.warned_ids()[i]) by {
            assert(prev.visited@.contains(prev.warned_ids()[i]));
            lemma_push_contains(prev.visited@, id, prev.warned_ids()[i]);
            assert(self.warned_ids()[i] != id);
            if self.downloaded@.contains(self.warned_ids()[i]) {
                let k = choose|k: int|
                    0 <= k < self.downloaded@.len() && self.downloaded@[k] == self.warned_ids()[i];
                assert(k < prev.downloaded@.len());
                assert(prev.downloaded@.contains(self.warned_ids()[i]));
            }
        }
        assert(self.visited@.to_set() =~= self.downloaded@.to_set().union(
            self.warned_ids().to_set(),
        ));
        assert forall|i: int|
            0 <= i < self.downloaded@.len() implies (#[trigger] self.requests.deep_view()[i]).mod_id
            == self.downloaded@[i] by {
            if i < prev.downloaded@.len() {
            } else {
                assert(self.requests.deep_view()[i] == self.requests.deep_view().last());
            }
        }
    }

    /// The invariant after recording a soft warning for a fresh id.
    proof fn lemma_after_skip(self, prev: Resolution, id: u32)
        requires
            prev.wf(),
            prev.pending is None,
            !prev.visited@.contains(id),
            self.target_version == prev.target_version,
            self.visited@ == prev.visited@.push(id),
            self.downloaded == prev.downloaded,
            self.requests == prev.requests,
            self.warnings.deep_view() == prev.warnings.deep_view().push(
                SoftWarningView { mod_id: id, version: prev.target_version@ },
            ),
            self.pending is None,
        ensures
            self.wf(),
    {
        lemma_push_to_set(prev.visited@, id);
        lemma_push_no_duplicates(prev.visited@, id);
        assert(self.warned_ids() =~= prev.warned_ids().push(id));
        assert(!prev.warned_ids().contains(id)) by {
            if prev.warned_ids().contains(id) {
                let i = choose|i: int| 0 <= i < prev.warned_ids().len() && prev.warned_ids()[i] == id;
                assert(prev.visited@.contains(id));
            }
        }
        lemma_push_no_duplicates(prev.warned_ids(), id);
        lemma_push_to_set(prev.warned_ids(), id);
        assert(!prev.downloaded@.contains(id)) by {
            if prev.downloaded@.contains(id) {
                let i = choose|i: int|
                    0 <= i < prev.downloaded@.len() && prev.downloaded@[i] == id;
                assert(prev.visited@.contains(id));
            }
        }
        assert forall|i: int|
            0 <= i < self.downloaded@.len() implies self.visited@.contains(
            #[trigger] self.downloaded@[i],
        ) by {
            assert(prev.visited@.contains(prev.downloaded@[i]));
            lemma_push_contains(prev.visited@, id, prev.downloaded@[i]);
        }
        assert forall|i: int|
            0 <= i < self.warned_ids().len() implies self.visited@.contains(
            #[trigger] self.warned_ids()[i],
        ) && !self.downloaded@.contains(self.warned_ids()[i]) by {
            if i < prev.warned_ids().len() {
                assert(prev.visited@.contains(prev.warned_ids()[i]));
                lemma_push_contains(prev.visited@, id, prev.warned_ids()[i]);
            } else {
                assert(self.warned_ids()[i] == id);
                assert(self.visited@.last() == id);
            }
        }
        assert(self.visited@.to_set() =~= self.downloaded@.to_set().union(
            self.warned_ids().to_set(),
        ));
    }
}

/// The file record a registry entry embeds for `version`, when the entry
/// exists and uses the embedded shape.
pub open spec fn embedded_file(registry: Registry, id: u32, version: Seq<char>) -> Option<
    crate::records::FileRecordView,
> {
    if registry.contains_id(id) {
        match registry.to_map()[id].file_ref(version) {
            Some(FileRefView::Embedded(file)) => Some(file),
            _ => None,
        }
    } else {
        None
    }
}

/// Whether `ids` holds `id`.
fn contains_id(ids: &Vec<u32>, id: u32) -> (b: bool)
    ensures
        b == ids@.contains(id),
{
    let mut i: usize = 0;
    while i < ids.len()
        invariant
            0 <= i <= ids@.len(),
            forall|j: int| 0 <= j < i ==> ids@[j] != id,
        decreases ids@.len() - i,
    {
        if ids[i] == id {
            return true;
        }
        i = i + 1;
    }
    false
}

/// Push the targets of the propagating edges, in edge order.
fn push_targets(stack: &mut Vec<u32>, deps: &Vec<DependencyEdge>)
    ensures
        final(stack)@ == old(stack)@ + propagate_targets(deps@),
{
    let mut i: usize = 0;
    proof {
        assert(deps@.take(0) =~= Seq::<DependencyEdge>::empty());
        assert(stack@ =~= stack@ + propagate_targets(deps@.take(0)));
    }
    while i < deps.len()
        invariant
            0 <= i <= deps@.len(),
            stack@ == old(stack)@ + propagate_targets(deps@.take(i as int)),
        decreases deps@.len() - i,
    {
        proof {
            assert(deps@.take(i + 1).drop_last() =~= deps@.take(i as int));
            assert(deps@.take(i + 1).last() == deps@[i as int]);
        }
        if deps[i].kind.propagates() {
            stack.push(deps[i].target_mod_id);
            proof {
                assert(stack@ =~= old(stack)@ + propagate_targets(deps@.take(i + 1)));
            }
        } else {
            proof {
                assert(stack@ =~= old(stack)@ + propagate_targets(deps@.take(i + 1)));
            }
        }
        i = i + 1;
    }
    proof {
        assert(deps@.take(deps@.len() as int) =~= deps@);
    }
}

/// A fresh id was pushed: the sequence still has no duplicates.
proof fn lemma_push_no_duplicates(s: Seq<u32>, x: u32)
    requires
        s.no_duplicates(),
        !s.contains(x),
    ensures
        s.push(x).no_duplicates(),
{
    assert forall|i: int, j: int|
        0 <= i < s.push(x).len() && 0 <= j < s.push(x).len() && i != j implies s.push(x)[i]
        != s.push(x)[j] by {
        if i < s.len() && j < s.len() {
        } else if i < s.len() {
            assert(s.contains(s[i]));
        } else if j < s.len() {
            assert(s.contains(s[j]));
        }
    }
}

/// Pushing adds exactly one element to the set of a sequence.
proof fn lemma_push_to_set(s: Seq<u32>, x: u32)
    ensures
        s.push(x).to_set() == s.to_set().insert(x),
{
    assert forall|y: u32| #[trigger] s.push(x).to_set().contains(y) implies s.to_set().insert(
        x,
    ).contains(y) by {
        let i = choose|i: int| 0 <= i < s.push(x).len() && s.push(x)[i] == y;
        if i < s.len() {
            assert(s.contains(y));
        }
    }
    assert forall|y: u32| #[trigger]
        s.to_set().insert(x).contains(y) implies s.push(x).to_set().contains(y) by {
        if y == x {
            assert(s.push(x)[s.len() as int] == y);
            assert(s.push(x).contains(y));
        } else {
            let i = choose|i: int| 0 <= i < s.len() && s[i] == y;
            assert(s.push(x)[i] == y);
            assert(s.push(x).contains(y));
        }
    }
    assert(s.push(x).to_set() =~= s.to_set().insert(x));
}

/// Membership is preserved by pushing.
proof fn lemma_push_contains(s: Seq<u32>, x: u32, y: u32)
    requires
        s.contains(y),
    ensures
        s.push(x).contains(y),
{
    let i = choose|i: int| 0 <= i < s.len() && s[i] == y;
    assert(s.push(x)[i] == y);
}

/// A fatal resolution failure: the catalog cannot supply a needed record.
/// It aborts the whole resolution and propagates unchanged; the registry
/// keeps everything cached up to that point.
#[derive(Clone, Copy, Debug, PartialEq, Eq, Structural)]
pub enum ResolveError {
    /// `fetchById` had no record for this mod id.
    RemoteNotFound { mod_id: u32 },
    /// `fetchFileDetail` had no record for the file pointer a mod's record
    /// names for the target version.
    RemoteFileNotFound { mod_id: u32, file_id: u32 },
}

/// The concrete file that resolving `id` for `version` downloads: the
/// embedded file record, or the catalog file the record's pointer names.
pub open spec fn resolved_file(
    registry: Registry,
    catalog: Catalog,
    id: u32,
    version: Seq<char>,
) -> Option<FileRecordView> {
    if registry.contains_id(id) {
        match registry.to_map()[id].file_ref(version) {
            Some(FileRefView::Embedded(file)) => Some(file),
            Some(FileRefView::Pointer(file_id)) => catalog.spec_file(file_id),
            None => None,
        }
    } else {
        None
    }
}

/// Whether a mod id can be resolved without leaving registry and catalog.
pub open spec fn known_id(registry: Registry, catalog: Catalog, id: u32) -> bool {
    registry.contains_id(id) || catalog.has_mod(id)
}

/// Whether everything `record` needs for `version` is in reach: its file
/// pointer (if any) answered by the catalog, and every propagating dependency
/// target a known id.
pub open spec fn record_covered(
    record: ModRecordView,
    registry: Registry,
    catalog: Catalog,
    version: Seq<char>,
) -> bool {
    match record.file_ref(version) {
        None => true,
        Some(FileRefView::Embedded(file)) => forall|t: u32|
            #[trigger] propagate_targets(file.dependencies).contains(t) ==> known_id(
                registry,
                catalog,
                t,
            ),
        Some(FileRefView::Pointer(file_id)) => catalog.spec_file(file_id) is Some && forall|t: u32|
            #[trigger] propagate_targets(
                catalog.spec_file(file_id).unwrap().dependencies,
            ).contains(t) ==> known_id(registry, catalog, t),
    }
}

/// A closed world: every record the registry or the catalog holds is covered,
/// so a resolution that starts at a known id can never fail.
pub open spec fn catalog_closed(registry: Registry, catalog: Catalog, version: Seq<char>) -> bool {
    &&& forall|k: int|
        0 <= k < registry@.len() ==> record_covered(
            #[trigger] registry@[k],
            registry,
            catalog,
            version,
        )
    &&& forall|k: int|
        0 <= k < catalog.mods@.len() ==> record_covered(
            #[trigger] catalog.mods@[k],
            registry,
            catalog,
            version,
        )
}

/// Distinct ids that all sit in a sorted record sequence are no more numerous
/// than the records.
proof fn lemma_visited_bound(visited: Seq<u32>, records: Seq<ModRecordView>)
    requires
        visited.no_duplicates(),
        sorted_by_id(records),
        forall|i: int|
            0 <= i < visited.len() ==> map_of(records).contains_key(#[trigger] visited[i]),
    ensures
        visited.len() <= records.len(),
{
    let ids = ids_of(records);
    lemma_sorted_ids_no_duplicates(records);
    lemma_map_of_dom(records);
    visited.unique_seq_to_set();
    ids.unique_seq_to_set();
    assert forall|x: u32| #[trigger] visited.to_set().contains(x) implies ids.to_set().contains(
        x,
    ) by {
        let i = choose|i: int| 0 <= i < visited.len() && visited[i] == x;
        assert(map_of(records).contains_key(visited[i]));
    }
    seq_to_set_is_finite::<u32>(ids);
    lemma_len_subset(visited.to_set(), ids.to_set());
}

/// A sorted record sequence whose records all come from two others is no
/// longer than the two together.
proof fn lemma_registry_bound(
    records: Seq<ModRecordView>,
    first: Seq<ModRecordView>,
    second: Seq<ModRecordView>,
)
    requires
        sorted_by_id(records),
        forall|k: int|
            0 <= k < records.len() ==> first.contains(#[trigger] records[k]) || second.contains(
                records[k],
            ),
    ensures
        records.len() <= first.len() + second.len(),
{
    let ids = ids_of(records);
    let ids1 = ids_of(first);
    let ids2 = ids_of(second);
    lemma_sorted_ids_no_duplicates(records);
    ids.unique_seq_to_set();
    assert forall|x: u32| #[trigger] ids.to_set().contains(x) implies ids1.to_set().union(
        ids2.to_set(),
    ).contains(x) by {
        let i = choose|i: int| 0 <= i < ids.len() && ids[i] == x;
        assert(records[i].id == x);
        if first.contains(records[i]) {
            let j = choose|j: int| 0 <= j < first.len() && first[j] == records[i];
            assert(ids1[j] == x);
            assert(ids1.to_set().contains(x));
        } else {
            let j = choose|j: int| 0 <= j < second.len() && second[j] == records[i];
            assert(ids2[j] == x);
            assert(ids2.to_set().contains(x));
        }
    }
    seq_to_set_is_finite::<u32>(ids1);
    seq_to_set_is_finite::<u32>(ids2);
    lemma_len_subset(ids.to_set(), ids1.to_set().union(ids2.to_set()));
    lemma_len_union(ids1.to_set(), ids2.to_set());
    ids1.lemma_cardinality_of_set();
    ids2.lemma_cardinality_of_set();
}

/// An element of a popped stack is still below the top, or was the top.
proof fn lemma_pop_contains(s: Seq<u32>, x: u32)
    requires
        s.len() > 0,
        s.contains(x),
    ensures
        s.drop_last().contains(x) || x == s.last(),
{
    let i = choose|i: int| 0 <= i < s.len() && s[i] == x;
    if i < s.len() - 1 {
        assert(s.drop_last()[i] == x);
    }
}

/// `resolve`: the whole dependency walk for `root_id` and `target_version`,
/// over an in-memory catalog.  The registry is used as a cache and filled
/// with every record fetched; the returned resolution holds the ordered
/// download trace and the soft warnings.  The walk terminates on every
/// input, cyclic dependency graphs included.
#[verifier::loop_isolation(false)]
pub fn resolve(
    root_id: u32,
    target_version: &String,
    registry: &mut Registry,
    catalog: &Catalog,
) -> (res: Result<Resolution, ResolveError>)
    requires
        old(registry).wf(),
        catalog.wf(),
    ensures
        final(registry).wf(),
        forall|id: u32|
            old(registry).contains_id(id) ==> final(registry).contains_id(id),
        forall|k: int|
            0 <= k < final(registry)@.len() ==> old(registry)@.contains(
                #[trigger] final(registry)@[k],
            ) || catalog.mods@.contains(final(registry)@[k]),
        match res {
            Ok(report) => {
                &&& report.wf()
                &&& report.pending is None
                &&& report.stack@.len() == 0
                &&& report.target_version@ == target_version@
                &&& report.visited@.contains(root_id)
                &&& forall|i: int|
                    0 <= i < report.visited@.len() ==> final(registry).contains_id(
                        #[trigger] report.visited@[i],
                    )
                &&& forall|i: int|
                    0 <= i < report.visited@.len() ==> justified(
                        #[trigger] report.visited@[i],
                        root_id,
                        report.downloaded@,
                        *final(registry),
                        *catalog,
                        target_version@,
                    )
                &&& forall|j: int|
                    0 <= j < report.downloaded@.len() ==> {
                        let file = resolved_file(
                            *final(registry),
                            *catalog,
                            #[trigger] report.downloaded@[j],
                            target_version@,
                        );
                        &&& file is Some
                        &&& report.requests.deep_view()[j] == request_for(
                            report.downloaded@[j],
                            file.unwrap(),
                        )
                        &&& forall|t: u32|
                            #[trigger] propagate_targets(file.unwrap().dependencies).contains(t)
                                ==> report.visited@.contains(t)
                    }
                &&& forall|j: int|
                    0 <= j < report.warnings@.len() ==> {
                        let w = #[trigger] report.warnings.deep_view()[j];
                        &&& w.version == target_version@
                        &&& final(registry).contains_id(w.mod_id)
                        &&& final(registry).to_map()[w.mod_id].file_ref(target_version@) is None
                    }
            },
            Err(e) => match e {
                ResolveError::RemoteNotFound { mod_id } => !catalog.has_mod(mod_id)
                    && !final(registry).contains_id(mod_id),
                ResolveError::RemoteFileNotFound { mod_id, file_id } => {
                    &&& catalog.spec_file(file_id) is None
                    &&& final(registry).contains_id(mod_id)
                    &&& final(registry).to_map()[mod_id].file_ref(target_version@) == Some(
                        FileRefView::Pointer(file_id),
                    )
                },
            },
        },
        catalog_closed(*old(registry), *catalog, target_version@) && known_id(
            *old(registry),
            *catalog,
            root_id,
        ) ==> res is Ok,
{
    let ghost reg0 = *registry;
    let ghost v = target_version@;
    let ghost k_bound: int = reg0@.len() as int + catalog.mods@.len() as int;
    let mut st = Resolution::new(root_id, target_version.clone());
    proof {
        assert(st.stack@[0] == root_id);
        assert(st.stack@.contains(root_id));
        assert forall|i: int|
            0 <= i < st.stack@.len() implies justified(
            #[trigger] st.stack@[i],
            root_id,
            st.downloaded@,
            *registry,
            *catalog,
            v,
        ) by {
            assert(st.stack@[i] == root_id);
        }
    }
    loop
        invariant
            st.wf(),
            st.pending is None,
            st.target_version@ == v,
            registry.wf(),
            forall|id: u32| reg0.contains_id(id) ==> registry.contains_id(id),
            forall|k: int|
                0 <= k < registry@.len() ==> reg0@.contains(#[trigger] registry@[k])
                    || catalog.mods@.contains(registry@[k]),
            forall|i: int|
                0 <= i < st.visited@.len() ==> registry.contains_id(#[trigger] st.visited@[i]),
            st.visited@.contains(root_id) || st.stack@.contains(root_id),
            forall|i: int|
                0 <= i < st.visited@.len() ==> justified(
                    #[trigger] st.visited@[i],
                    root_id,
                    st.downloaded@,
                    *registry,
                    *catalog,
                    v,
                ),
            forall|i: int|
                0 <= i < st.stack@.len() ==> justified(
                    #[trigger] st.stack@[i],
                    root_id,
                    st.downloaded@,
                    *registry,
                    *catalog,
                    v,
                ),
            forall|j: int|
                0 <= j < st.downloaded@.len() ==> #[trigger] downloads_ok(
                    st,
                    *registry,
                    *catalog,
                    v,
                    j,
                ),
            forall|j: int|
                0 <= j < st.warnings@.len() ==> {
                    let w = #[trigger] st.warnings.deep_view()[j];
                    registry.contains_id(w.mod_id) && registry.to_map()[w.mod_id].file_ref(
                        v,
                    ) is None
                },
            catalog_closed(reg0, *catalog, v) && known_id(reg0, *catalog, root_id) ==> forall|
                i: int,
            |
                0 <= i < st.stack@.len() ==> known_id(reg0, *catalog, #[trigger] st.stack@[i]),
        decreases
            k_bound - st.visited@.len(),
            k_bound - registry@.len(),
            st.stack@.len(),
    {
        proof {
            lemma_visited_bound(st.visited@, registry@);
            lemma_registry_bound(registry@, reg0@, catalog.mods@);
        }
        let ghost prev_st = st;
        let ghost prev_reg = *registry;
        match st.step(registry) {
            Step::Finished => {
                proof {
                    assert(st.stack@.len() == 0);
                    if !st.visited@.contains(root_id) {
                        assert(st.stack@.contains(root_id));
                        assert(false);
                    }
                    assert forall|j: int| 0 <= j < st.downloaded@.len() implies {
                        let file = resolved_file(
                            *registry,
                            *catalog,
                            #[trigger] st.downloaded@[j],
                            v,
                        );
                        &&& file is Some
                        &&& st.requests.deep_view()[j] == request_for(
                            st.downloaded@[j],
                            file.unwrap(),
                        )
                        &&& forall|t: u32|
                            #[trigger] propagate_targets(file.unwrap().dependencies).contains(t)
                                ==> st.visited@.contains(t)
                    } by {
                        assert(downloads_ok(prev_st, *registry, *catalog, v, j));
                        assert(downloads_ok(st, *registry, *catalog, v, j));
                        let file = resolved_file(*registry, *catalog, st.downloaded@[j], v);
                        assert forall|t: u32|
                            #[trigger] propagate_targets(
                                file.unwrap().dependencies,
                            ).contains(t) implies st.visited@.contains(t) by {
                            assert(st.visited@.contains(t) || st.stack@.contains(t));
                        }
                    }
                    assert forall|i: int|
                        0 <= i < st.visited@.len() implies justified(
                        #[trigger] st.visited@[i],
                        root_id,
                        st.downloaded@,
                        *registry,
                        *catalog,
                        v,
                    ) by {
                        assert(justified(
                            prev_st.visited@[i],
                            root_id,
                            prev_st.downloaded@,
                            *registry,
                            *catalog,
                            v,
                        ));
                    }
                }
                return Ok(st);
            },
            Step::AlreadyDone(id) => {
                proof {
                    if prev_st.stack@.contains(root_id) {
                        lemma_pop_contains(prev_st.stack@, root_id);
                    }
                    assert forall|j: int|
                        0 <= j < st.downloaded@.len() implies downloads_ok(
                        st,
                        *registry,
                        *catalog,
                        v,
                        j,
                    ) by {
                        assert(downloads_ok(prev_st, prev_reg, *catalog, v, j));
                        let file = resolved_file(*registry, *catalog, st.downloaded@[j], v);
                        assert forall|t: u32|
                            #[trigger] propagate_targets(
                                file.unwrap().dependencies,
                            ).contains(t) implies st.visited@.contains(t) || st.stack@.contains(
                            t,
                        ) by {
                            if prev_st.stack@.contains(t) {
                                lemma_pop_contains(prev_st.stack@, t);
                            }
                        }
                    }
                    assert forall|i: int|
                        0 <= i < st.visited@.len() implies justified(
                        #[trigger] st.visited@[i],
                        root_id,
                        st.downloaded@,
                        *registry,
                        *catalog,
                        v,
                    ) by {
                        assert(justified(
                            prev_st.visited@[i],
                            root_id,
                            prev_st.downloaded@,
                            *registry,
                            *catalog,
                            v,
                        ));
                    }
                    assert forall|i: int|
                        0 <= i < st.stack@.len() implies justified(
                        #[trigger] st.stack@[i],
                        root_id,
                        st.downloaded@,
                        *registry,
                        *catalog,
                        v,
                    ) by {
                        assert(st.stack@[i] == prev_st.stack@[i]);
                        assert(justified(
                            prev_st.stack@[i],
                            root_id,
                            prev_st.downloaded@,
                            *registry,
                            *catalog,
                            v,
                        ));
                    }
                }
            },
            Step::Skipped(id) => {
                proof {
                    if prev_st.stack@.contains(root_id) {
                        lemma_pop_contains(prev_st.stack@, root_id);
                        if root_id == id {
                            assert(st.visited@.last() == id);
                            assert(st.visited@.contains(root_id));
                        }
                    } else {
                        lemma_push_contains(prev_st.visited@, id, root_id);
                    }
                    assert forall|j: int|
                        0 <= j < st.downloaded@.len() implies downloads_ok(
                        st,
                        *registry,
                        *catalog,
                        v,
                        j,
                    ) by {
                        assert(downloads_ok(prev_st, prev_reg, *catalog, v, j));
                        let file = resolved_file(*registry, *catalog, st.downloaded@[j], v);
                        assert forall|t: u32|
                            #[trigger] propagate_targets(
                                file.unwrap().dependencies,
                            ).contains(t) implies st.visited@.contains(t) || st.stack@.contains(
                            t,
                        ) by {
                            if prev_st.visited@.contains(t) {
                                lemma_push_contains(prev_st.visited@, id, t);
                            } else {
                                lemma_pop_contains(prev_st.stack@, t);
                                if t == id {
                                    assert(st.visited@.last() == id);
                                }
                            }
                        }
                    }
                    assert forall|i: int|
                        0 <= i < st.visited@.len() implies registry.contains_id(
                        #[trigger] st.visited@[i],
                    ) by {
                        if i < prev_st.visited@.len() {
                        } else {
                            assert(st.visited@[i] == id);
                        }
                    }
                    assert forall|i: int|
                        0 <= i < st.visited@.len() implies justified(
                        #[trigger] st.visited@[i],
                        root_id,
                        st.downloaded@,
                        *registry,
                        *catalog,
                        v,
                    ) by {
                        if i < prev_st.visited@.len() {
                            assert(st.visited@[i] == prev_st.visited@[i]);
                            assert(justified(
                                prev_st.visited@[i],
                                root_id,
                                prev_st.downloaded@,
                                *registry,
                                *catalog,
                                v,
                            ));
                        } else {
                            assert(st.visited@[i] == id);
                            assert(prev_st.stack@[prev_st.stack@.len() - 1] == id);
                            assert(justified(
                                prev_st.stack@[prev_st.stack@.len() - 1],
                                root_id,
                                prev_st.downloaded@,
                                *registry,
                                *catalog,
                                v,
                            ));
                        }
                    }
                    assert forall|i: int|
                        0 <= i < st.stack@.len() implies justified(
                        #[trigger] st.stack@[i],
                        root_id,
                        st.downloaded@,
                        *registry,
                        *catalog,
                        v,
                    ) by {
                        assert(st.stack@[i] == prev_st.stack@[i]);
                        assert(justified(
                            prev_st.stack@[i],
                            root_id,
                            prev_st.downloaded@,
                            *registry,
                            *catalog,
                            v,
                        ));
                    }
                    lemma_visited_bound(st.visited@, registry@);
                }
            },
            Step::NeedMod(id) => {
                match catalog.fetch_by_id(id) {
                    Some(record) => {
                        let fetched = record.clone();
                        proof {
                            lemma_map_of_contains(catalog.mods@);
                            assert(catalog.mods@.contains(fetched@)) by {
                                let i = choose|i: int|
                                    0 <= i < catalog.mods@.len() && catalog.mods@[i].id == id
                                        && map_of(catalog.mods@)[id] == catalog.mods@[i];
                                assert(catalog.mods@[i] == fetched@);
                            }
                        }
                        registry.upsert(fetched);
                        proof {
                            assert forall|i: int|
                                0 <= i < st.visited@.len() implies registry.contains_id(
                                #[trigger] st.visited@[i],
                            ) by {
                                assert(prev_reg.contains_id(st.visited@[i]));
                            }
                            assert forall|j: int|
                                0 <= j < st.downloaded@.len() implies downloads_ok(
                                st,
                                *registry,
                                *catalog,
                                v,
                                j,
                            ) by {
                                assert(downloads_ok(prev_st, prev_reg, *catalog, v, j));
                                let d = st.downloaded@[j];
                                assert(st.visited@.contains(d));
                                assert(prev_reg.contains_id(d));
                                assert(d != id);
                                assert(registry.to_map()[d] == prev_reg.to_map()[d]);
                            }
                            assert forall|j: int|
                                0 <= j < st.warnings@.len() implies {
                                let w = #[trigger] st.warnings.deep_view()[j];
                                registry.contains_id(w.mod_id) && registry.to_map()[
                                    w.mod_id
                                ].file_ref(v) is None
                            } by {
                                let w = st.warnings.deep_view()[j];
                                assert(prev_reg.contains_id(w.mod_id));
                                assert(w.mod_id != id);
                                assert(registry.to_map()[w.mod_id] == prev_reg.to_map()[w.mod_id]);
                            }
                            assert forall|j: int|
                                0 <= j < st.downloaded@.len() implies resolved_file(
                                *registry,
                                *catalog,
                                #[trigger] st.downloaded@[j],
                                v,
                            ) == resolved_file(prev_reg, *catalog, st.downloaded@[j], v) by {
                                let d = st.downloaded@[j];
                                assert(st.visited@.contains(d));
                                assert(prev_reg.contains_id(d));
                                assert(d != id);
                                assert(registry.to_map()[d] == prev_reg.to_map()[d]);
                            }
                            assert forall|i: int|
                                0 <= i < st.visited@.len() implies justified(
                                #[trigger] st.visited@[i],
                                root_id,
                                st.downloaded@,
                                *registry,
                                *catalog,
                                v,
                            ) by {
                                assert(justified(
                                    prev_st.visited@[i],
                                    root_id,
                                    prev_st.downloaded@,
                                    prev_reg,
                                    *catalog,
                                    v,
                                ));
                                lemma_justified_stable(
                                    st.visited@[i],
                                    root_id,
                                    st.downloaded@,
                                    prev_reg,
                                    *registry,
                                    *catalog,
                                    v,
                                );
                            }
                            assert forall|i: int|
                                0 <= i < st.stack@.len() implies justified(
                                #[trigger] st.stack@[i],
                                root_id,
                                st.downloaded@,
                                *registry,
                                *catalog,
                                v,
                            ) by {
                                assert(st.stack@[i] == prev_st.stack@[i]);
                                assert(justified(
                                    prev_st.stack@[i],
                                    root_id,
                                    prev_st.downloaded@,
                                    prev_reg,
                                    *catalog,
                                    v,
                                ));
                                lemma_justified_stable(
                                    st.stack@[i],
                                    root_id,
                                    st.downloaded@,
                                    prev_reg,
                                    *registry,
                                    *catalog,
                                    v,
                                );
                            }
                            lemma_registry_bound(registry@, reg0@, catalog.mods@);
                        }
                    },
                    None => {
                        proof {
                            if catalog_closed(reg0, *catalog, v) && known_id(
                                reg0,
                                *catalog,
                                root_id,
                            ) {
                                assert(known_id(reg0, *catalog, id));
                                assert(false);
                            }
                        }
                        return Err(ResolveError::RemoteNotFound { mod_id: id });
                    },
                }
            },
            Step::NeedFile(p) => {
                match catalog.fetch_file_detail(p.file_id) {
                    Some(file) => {
                        let ghost mid_st = st;
                        let _ = st.provide_file(file);
                        proof {
                            if prev_st.stack@.contains(root_id) {
                                lemma_pop_contains(prev_st.stack@, root_id);
                                if root_id == p.mod_id {
                                    assert(st.visited@.last() == p.mod_id);
                                    assert(st.visited@.contains(root_id));
                                } else {
                                    assert(mid_st.stack@.contains(root_id));
                                    assert(st.stack@ == mid_st.stack@ + propagate_targets(
                                        file@.dependencies,
                                    ));
                                    let i = choose|i: int|
                                        0 <= i < mid_st.stack@.len() && mid_st.stack@[i] == root_id;
                                    assert(st.stack@[i] == root_id);
                                }
                            } else {
                                lemma_push_contains(prev_st.visited@, p.mod_id, root_id);
                            }
                            assert forall|i: int|
                                0 <= i < st.visited@.len() implies registry.contains_id(
                                #[trigger] st.visited@[i],
                            ) by {
                                if i < prev_st.visited@.len() {
                                } else {
                                    assert(st.visited@[i] == p.mod_id);
                                }
                            }
                            assert(resolved_file(*registry, *catalog, p.mod_id, v) == Some(
                                file@,
                            ));
                            assert forall|j: int|
                                0 <= j < st.downloaded@.len() implies downloads_ok(
                                st,
                                *registry,
                                *catalog,
                                v,
                                j,
                            ) by {
                                let d = st.downloaded@[j];
                                let rfile = resolved_file(*registry, *catalog, d, v);
                                if j < prev_st.downloaded@.len() {
                                    assert(downloads_ok(prev_st, prev_reg, *catalog, v, j));
                                    assert forall|t: u32|
                                        #[trigger] propagate_targets(
                                            rfile.unwrap().dependencies,
                                        ).contains(t) implies st.visited@.contains(t)
                                        || st.stack@.contains(t) by {
                                        if prev_st.visited@.contains(t) {
                                            lemma_push_contains(prev_st.visited@, p.mod_id, t);
                                        } else {
                                            lemma_pop_contains(prev_st.stack@, t);
                                            if t == p.mod_id {
                                                assert(st.visited@.last() == p.mod_id);
                                            } else {
                                                let i = choose|i: int|
                                                    0 <= i < mid_st.stack@.len()
                                                        && mid_st.stack@[i] == t;
                                                assert(st.stack@[i] == t);
                                            }
                                        }
                                    }
                                } else {
                                    assert(d == p.mod_id);
                                    assert(st.requests.deep_view()[j] == request_for(d, file@));
                                    assert forall|t: u32|
                                        #[trigger] propagate_targets(
                                            file@.dependencies,
                                        ).contains(t) implies st.visited@.contains(t)
                                        || st.stack@.contains(t) by {
                                        let i = choose|i: int|
                                            0 <= i < propagate_targets(file@.dependencies).len()
                                                && propagate_targets(file@.dependencies)[i] == t;
                                        assert(st.stack@[mid_st.stack@.len() + i] == t);
                                    }
                                }
                            }
                            if catalog_closed(reg0, *catalog, v) && known_id(
                                reg0,
                                *catalog,
                                root_id,
                            ) {
                                lemma_stack_known(
                                    *registry,
                                    reg0,
                                    *catalog,
                                    v,
                                    p.mod_id,
                                    st.stack@,
                                    mid_st.stack@,
                                );
                            }
                            assert(st.downloaded@[st.downloaded@.len() - 1] == p.mod_id);
                            assert forall|i: int|
                                0 <= i < st.visited@.len() implies justified(
                                #[trigger] st.visited@[i],
                                root_id,
                                st.downloaded@,
                                *registry,
                                *catalog,
                                v,
                            ) by {
                                if i < prev_st.visited@.len() {
                                    assert(st.visited@[i] == prev_st.visited@[i]);
                                    assert(justified(
                                        prev_st.visited@[i],
                                        root_id,
                                        prev_st.downloaded@,
                                        *registry,
                                        *catalog,
                                        v,
                                    ));
                                    lemma_justified_extend(
                                        st.visited@[i],
                                        root_id,
                                        prev_st.downloaded@,
                                        st.downloaded@,
                                        *registry,
                                        *catalog,
                                        v,
                                    );
                                } else {
                                    assert(st.visited@[i] == p.mod_id);
                                    assert(prev_st.stack@[prev_st.stack@.len() - 1] == p.mod_id);
                                    assert(justified(
                                        prev_st.stack@[prev_st.stack@.len() - 1],
                                        root_id,
                                        prev_st.downloaded@,
                                        *registry,
                                        *catalog,
                                        v,
                                    ));
                                    lemma_justified_extend(
                                        p.mod_id,
                                        root_id,
                                        prev_st.downloaded@,
                                        st.downloaded@,
                                        *registry,
                                        *catalog,
                                        v,
                                    );
                                }
                            }
                            assert forall|i: int|
                                0 <= i < st.stack@.len() implies justified(
                                #[trigger] st.stack@[i],
                                root_id,
                                st.downloaded@,
                                *registry,
                                *catalog,
                                v,
                            ) by {
                                if i < mid_st.stack@.len() {
                                    assert(st.stack@[i] == mid_st.stack@[i]);
                                    assert(mid_st.stack@[i] == prev_st.stack@[i]);
                                    assert(justified(
                                        prev_st.stack@[i],
                                        root_id,
                                        prev_st.downloaded@,
                                        *registry,
                                        *catalog,
                                        v,
                                    ));
                                    lemma_justified_extend(
                                        st.stack@[i],
                                        root_id,
                                        prev_st.downloaded@,
                                        st.downloaded@,
                                        *registry,
                                        *catalog,
                                        v,
                                    );
                                } else {
                                    assert(propagate_targets(file@.dependencies)[i
                                        - mid_st.stack@.len()] == st.stack@[i]);
                                    assert(propagate_targets(file@.dependencies).contains(
                                        st.stack@[i],
                                    ));
                                    assert(propagate_targets(
                                        resolved_file(
                                            *registry,
                                            *catalog,
                                            st.downloaded@[st.downloaded@.len() - 1],
                                            v,
                                        ).unwrap().dependencies,
                                    ).contains(st.stack@[i]));
                                }
                            }
                            lemma_visited_bound(st.visited@, registry@);
                        }
                    },
                    None => {
                        proof {
                            if catalog_closed(reg0, *catalog, v) && known_id(
                                reg0,
                                *catalog,
                                root_id,
                            ) {
                                lemma_record_is_covered(*registry, reg0, *catalog, v, p.mod_id);
                                assert(false);
                            }
                        }
                        return Err(
                            ResolveError::RemoteFileNotFound { mod_id: p.mod_id, file_id: p.file_id },
                        );
                    },
                }
            },
            Step::Download(req) => {
                proof {
                    let id = req@.mod_id;
                    let file = embedded_file(*registry, id, v).unwrap();
                    if prev_st.stack@.contains(root_id) {
                        lemma_pop_contains(prev_st.stack@, root_id);
                        if root_id == id {
                            assert(st.visited@.last() == id);
                            assert(st.visited@.contains(root_id));
                        } else {
                            let i = choose|i: int|
                                0 <= i < prev_st.stack@.drop_last().len()
                                    && prev_st.stack@.drop_last()[i] == root_id;
                            assert(st.stack@[i] == root_id);
                        }
                    } else {
                        lemma_push_contains(prev_st.visited@, id, root_id);
                    }
                    assert forall|i: int|
                        0 <= i < st.visited@.len() implies registry.contains_id(
                        #[trigger] st.visited@[i],
                    ) by {
                        if i < prev_st.visited@.len() {
                        } else {
                            assert(st.visited@[i] == id);
                        }
                    }
                    assert(resolved_file(*registry, *catalog, id, v) == Some(file));
                    assert forall|j: int|
                        0 <= j < st.downloaded@.len() implies downloads_ok(
                        st,
                        *registry,
                        *catalog,
                        v,
                        j,
                    ) by {
                        let d = st.downloaded@[j];
                        let rfile = resolved_file(*registry, *catalog, d, v);
                        if j < prev_st.downloaded@.len() {
                            assert(downloads_ok(prev_st, prev_reg, *catalog, v, j));
                            assert forall|t: u32|
                                #[trigger] propagate_targets(
                                    rfile.unwrap().dependencies,
                                ).contains(t) implies st.visited@.contains(t) || st.stack@.contains(
                                t,
                            ) by {
                                if prev_st.visited@.contains(t) {
                                    lemma_push_contains(prev_st.visited@, id, t);
                                } else {
                                    lemma_pop_contains(prev_st.stack@, t);
                                    if t == id {
                                        assert(st.visited@.last() == id);
                                    } else {
                                        let i = choose|i: int|
                                            0 <= i < prev_st.stack@.drop_last().len()
                                                && prev_st.stack@.drop_last()[i] == t;
                                        assert(st.stack@[i] == t);
                                    }
                                }
                            }
                        } else {
                            assert(d == id);
                            assert forall|t: u32|
                                #[trigger] propagate_targets(file.dependencies).contains(
                                t,
                            ) implies st.visited@.contains(t) || st.stack@.contains(t) by {
                                let i = choose|i: int|
                                    0 <= i < propagate_targets(file.dependencies).len()
                                        && propagate_targets(file.dependencies)[i] == t;
                                assert(st.stack@[prev_st.stack@.drop_last().len() + i] == t);
                            }
                        }
                    }
                    if catalog_closed(reg0, *catalog, v) && known_id(reg0, *catalog, root_id) {
                        lemma_stack_known(
                            *registry,
                            reg0,
                            *catalog,
                            v,
                            id,
                            st.stack@,
                            prev_st.stack@.drop_last(),
                        );
                    }
                    assert(st.downloaded@[st.downloaded@.len() - 1] == id);
                    assert forall|i: int|
                        0 <= i < st.visited@.len() implies justified(
                        #[trigger] st.visited@[i],
                        root_id,
                        st.downloaded@,
                        *registry,
                        *catalog,
                        v,
                    ) by {
                        if i < prev_st.visited@.len() {
                            assert(st.visited@[i] == prev_st.visited@[i]);
                            assert(justified(
                                prev_st.visited@[i],
                                root_id,
                                prev_st.downloaded@,
                                *registry,
                                *catalog,
                                v,
                            ));
                            lemma_justified_extend(
                                st.visited@[i],
                                root_id,
                                prev_st.downloaded@,
                                st.downloaded@,
                                *registry,
                                *catalog,
                                v,
                            );
                        } else {
                            assert(st.visited@[i] == id);
                            assert(prev_st.stack@[prev_st.stack@.len() - 1] == id);
                            assert(justified(
                                prev_st.stack@[prev_st.stack@.len() - 1],
                                root_id,
                                prev_st.downloaded@,
                                *registry,
                                *catalog,
                                v,
                            ));
                            lemma_justified_extend(
                                id,
                                root_id,
                                prev_st.downloaded@,
                                st.downloaded@,
                                *registry,
                                *catalog,
                                v,
                            );
                        }
                    }
                    assert forall|i: int|
                        0 <= i < st.stack@.len() implies justified(
                        #[trigger] st.stack@[i],
                        root_id,
                        st.downloaded@,
                        *registry,
                        *catalog,
                        v,
                    ) by {
                        if i < prev_st.stack@.drop_last().len() {
                            assert(st.stack@[i] == prev_st.stack@[i]);
                            assert(justified(
                                prev_st.stack@[i],
                                root_id,
                                prev_st.downloaded@,
                                *registry,
                                *catalog,
                                v,
                            ));
                            lemma_justified_extend(
                                st.stack@[i],
                                root_id,
                                prev_st.downloaded@,
                                st.downloaded@,
                                *registry,
                                *catalog,
                                v,
                            );
                        } else {
                            assert(propagate_targets(file.dependencies)[i
                                - prev_st.stack@.drop_last().len()] == st.stack@[i]);
                            assert(propagate_targets(file.dependencies).contains(st.stack@[i]));
                            assert(propagate_targets(
                                resolved_file(
                                    *registry,
                                    *catalog,
                                    st.downloaded@[st.downloaded@.len() - 1],
                                    v,
                                ).unwrap().dependencies,
                            ).contains(st.stack@[i]));
                        }
                    }
                    lemma_visited_bound(st.visited@, registry@);
                }
            },
        }
    }
}

/// The per-download invariant: the resolved file exists, the recorded
/// request is exactly the one that file calls for, and every propagating
/// target is tracked.
spec fn downloads_ok(
    st: Resolution,
    registry: Registry,
    catalog: Catalog,
    version: Seq<char>,
    j: int,
) -> bool {
    let file = resolved_file(registry, catalog, st.downloaded@[j], version);
    &&& file is Some
    &&& st.requests.deep_view()[j] == request_for(st.downloaded@[j], file.unwrap())
    &&& forall|t: u32|
        #[trigger] propagate_targets(file.unwrap().dependencies).contains(t)
            ==> st.visited@.contains(t) || st.stack@.contains(t)
}

/// Why an id was visited: it is the root, or some downloaded file's
/// propagating edges name it.  This confines a resolution to the dependency
/// closure of the root.
pub open spec fn justified(
    id: u32,
    root_id: u32,
    downloaded: Seq<u32>,
    registry: Registry,
    catalog: Catalog,
    version: Seq<char>,
) -> bool {
    id == root_id || exists|j: int|
        0 <= j < downloaded.len() && propagate_targets(
            resolved_file(registry, catalog, #[trigger] downloaded[j], version).unwrap().dependencies,
        ).contains(id)
}

/// Justification carries over a registry change that leaves every downloaded
/// id's resolved file as it was.
proof fn lemma_justified_stable(
    id: u32,
    root_id: u32,
    downloaded: Seq<u32>,
    reg_old: Registry,
    reg_new: Registry,
    catalog: Catalog,
    version: Seq<char>,
)
    requires
        justified(id, root_id, downloaded, reg_old, catalog, version),
        forall|j: int|
            0 <= j < downloaded.len() ==> resolved_file(
                reg_new,
                catalog,
                #[trigger] downloaded[j],
                version,
            ) == resolved_file(reg_old, catalog, downloaded[j], version),
    ensures
        justified(id, root_id, downloaded, reg_new, catalog, version),
{
    if id != root_id {
        let j = choose|j: int|
            0 <= j < downloaded.len() && propagate_targets(
                resolved_file(reg_old, catalog, #[trigger] downloaded[j], version).unwrap().dependencies,
            ).contains(id);
        assert(propagate_targets(
            resolved_file(reg_new, catalog, downloaded[j], version).unwrap().dependencies,
        ).contains(id));
    }
}

/// Justification carries over an extension of the downloaded trace.
proof fn lemma_justified_extend(
    id: u32,
    root_id: u32,
    downloaded: Seq<u32>,
    extended: Seq<u32>,
    registry: Registry,
    catalog: Catalog,
    version: Seq<char>,
)
    requires
        justified(id, root_id, downloaded, registry, catalog, version),
        downloaded.len() <= extended.len(),
        forall|j: int| 0 <= j < downloaded.len() ==> extended[j] == #[trigger] downloaded[j],
    ensures
        justified(id, root_id, extended, registry, catalog, version),
{
    if id != root_id {
        let j = choose|j: int|
            0 <= j < downloaded.len() && propagate_targets(
                resolved_file(registry, catalog, #[trigger] downloaded[j], version).unwrap().dependencies,
            ).contains(id);
        assert(extended[j] == downloaded[j]);
        assert(propagate_targets(
            resolved_file(registry, catalog, extended[j], version).unwrap().dependencies,
        ).contains(id));
    }
}

/// The record the registry holds under a known id is covered by a closed
/// world (it is one of the original records or a catalog record).
proof fn lemma_record_is_covered(
    registry: Registry,
    reg0: Registry,
    catalog: Catalog,
    version: Seq<char>,
    id: u32,
)
    requires
        catalog_closed(reg0, catalog, version),
        registry.contains_id(id),
        forall|k: int|
            0 <= k < registry@.len() ==> reg0@.contains(#[trigger] registry@[k])
                || catalog.mods@.contains(registry@[k]),
    ensures
        record_covered(registry.to_map()[id], reg0, catalog, version),
{
    lemma_map_of_contains(registry@);
    let i = choose|i: int|
        0 <= i < registry@.len() && registry@[i].id == id && map_of(registry@)[id] == registry@[i];
    let record = registry@[i];
    if reg0@.contains(record) {
        let k = choose|k: int| 0 <= k < reg0@.len() && reg0@[k] == record;
        assert(record_covered(reg0@[k], reg0, catalog, version));
    } else {
        let k = choose|k: int| 0 <= k < catalog.mods@.len() && catalog.mods@[k] == record;
        assert(record_covered(catalog.mods@[k], reg0, catalog, version));
    }
}

/// In a closed world, queueing the resolved file's targets after the old
/// stack keeps every stack id known.
proof fn lemma_stack_known(
    registry: Registry,
    reg0: Registry,
    catalog: Catalog,
    version: Seq<char>,
    id: u32,
    new_stack: Seq<u32>,
    base_stack: Seq<u32>,
)
    requires
        catalog_closed(reg0, catalog, version),
        registry.contains_id(id),
        forall|k: int|
            0 <= k < registry@.len() ==> reg0@.contains(#[trigger] registry@[k])
                || catalog.mods@.contains(registry@[k]),
        forall|i: int| 0 <= i < base_stack.len() ==> known_id(reg0, catalog, #[trigger] base_stack[i]),
        resolved_file(registry, catalog, id, version) is Some,
        new_stack == base_stack + propagate_targets(
            resolved_file(registry, catalog, id, version).unwrap().dependencies,
        ),
    ensures
        forall|i: int| 0 <= i < new_stack.len() ==> known_id(reg0, catalog, #[trigger] new_stack[i]),
{
    lemma_record_is_covered(registry, reg0, catalog, version, id);
    let record = registry.to_map()[id];
    let file = resolved_file(registry, catalog, id, version).unwrap();
    assert forall|i: int|
        0 <= i < new_stack.len() implies known_id(reg0, catalog, #[trigger] new_stack[i]) by {
        if i < base_stack.len() {
            assert(new_stack[i] == base_stack[i]);
        } else {
            let targets = propagate_targets(file.dependencies);
            assert(new_stack[i] == targets[i - base_stack.len()]);
            assert(targets.contains(new_stack[i]));
            match record.file_ref(version) {
                Some(FileRefView::Embedded(f)) => {
                    assert(f == file);
                },
                Some(FileRefView::Pointer(fid)) => {
                    assert(catalog.spec_file(fid) == Some(file));
                },
                None => {
                    assert(false);
                },
            }
        }
    }
}

/// At-most-once law: in any well-formed resolution state the downloaded ids
/// are pairwise distinct, so a graph reaching N distinct ids sees at most N
/// download requests, one per id.
pub proof fn lemma_download_at_most_once(r: Resolution)
    requires
        r.wf(),
    ensures
        r.downloaded@.no_duplicates(),
        r.downloaded@.to_set().len() == r.downloaded@.len(),
        r.requests.deep_view().len() == r.downloaded@.len(),
{
    r.downloaded@.unique_seq_to_set();
}

} // verus!
