//! The metadata records the catalog serves: mods, concrete files, and the
//! dependency edges between them.
//!
//! Each executable record type has a ghost mirror (its view) whose fields are
//! mathematical values; every contract in this crate speaks of those views.

use vstd::prelude::*;

verus! {

/// Classification of a dependency edge.  The catalog encodes the kind as a
/// small integer; here code 1 is read as a required dependency and code 3 as
/// a tool-type dependency, and only those two kinds are followed during
/// resolution.  Every other code is kept verbatim and never traversed.
#[derive(Clone, Copy, Debug, PartialEq, Eq, Structural)]
pub enum DependencyKind {
    Required,
    Tool,
    Other(u32),
}

impl DependencyKind {
    /// The reading of a raw catalog kind code.
    pub open spec fn spec_from_code(code: u32) -> DependencyKind {
        if code == 1 {
            DependencyKind::Required
        } else if code == 3 {
            DependencyKind::Tool
        } else {
            DependencyKind::Other(code)
        }
    }

    pub fn from_code(code: u32) -> (kind: DependencyKind)
        ensures
            kind == DependencyKind::spec_from_code(code),
    {
        if code == 1 {
            DependencyKind::Required
        } else if code == 3 {
            DependencyKind::Tool
        } else {
            DependencyKind::Other(code)
        }
    }

    /// Whether edges of this kind are followed recursively.
    pub open spec fn spec_propagates(self) -> bool {
        self == DependencyKind::Required || self == DependencyKind::Tool
    }

    pub fn propagates(&self) -> (b: bool)
        ensures
            b == self.spec_propagates(),
    {
        matches!(self, DependencyKind::Required | DependencyKind::Tool)
    }
}

/// A directed relation from one mod's file to another mod it requires or
/// optionally uses.  The edge is a pair of plain values and is its own view.
#[derive(Copy, Debug, PartialEq, Eq, Structural)]
pub struct DependencyEdge {
    pub target_mod_id: u32,
    pub kind: DependencyKind,
}

impl Clone for DependencyEdge {
    fn clone(&self) -> (res: Self)
        ensures
            res == *self,
    {
        DependencyEdge { target_mod_id: self.target_mod_id, kind: self.kind }
    }
}

impl DeepView for DependencyEdge {
    type V = DependencyEdge;

    open spec fn deep_view(&self) -> DependencyEdge {
        *self
    }
}

/// A lightweight per-version file reference: the catalog variant that does
/// not embed full file lists stores, for each game version, the id of the
/// concrete file to fetch in a second request.
#[derive(Debug)]
pub struct VersionPointer {
    pub version: String,
    pub file_id: u32,
}

#[verifier::ext_equal]
pub ghost struct VersionPointerView {
    pub version: Seq<char>,
    pub file_id: u32,
}

impl View for VersionPointer {
    type V = VersionPointerView;

    open spec fn view(&self) -> VersionPointerView {
        VersionPointerView { version: self.version@, file_id: self.file_id }
    }
}

impl DeepView for VersionPointer {
    type V = VersionPointerView;

    open spec fn deep_view(&self) -> VersionPointerView {
        self.view()
    }
}

impl Clone for VersionPointer {
    fn clone(&self) -> (res: Self)
        ensures
            res@ == self@,
    {
        VersionPointer { version: self.version.clone(), file_id: self.file_id }
    }
}

/// One concrete downloadable artifact for one mod version.
#[derive(Debug)]
pub struct FileRecord {
    pub id: u32,
    pub download_url: String,
    pub file_name_on_disk: String,
    pub file_length: Option<u64>,
    pub game_versions: Vec<String>,
    pub dependencies: Vec<DependencyEdge>,
}

#[verifier::ext_equal]
pub ghost struct FileRecordView {
    pub id: u32,
    pub download_url: Seq<char>,
    pub file_name_on_disk: Seq<char>,
    pub file_length: Option<u64>,
    pub game_versions: Seq<Seq<char>>,
    pub dependencies: Seq<DependencyEdge>,
}

impl View for FileRecord {
    type V = FileRecordView;

    open spec fn view(&self) -> FileRecordView {
        FileRecordView {
            id: self.id,
            download_url: self.download_url@,
            file_name_on_disk: self.file_name_on_disk@,
            file_length: self.file_length,
            game_versions: self.game_versions.deep_view(),
            dependencies: self.dependencies@,
        }
    }
}

impl DeepView for FileRecord {
    type V = FileRecordView;

    open spec fn deep_view(&self) -> FileRecordView {
        self.view()
    }
}

impl Clone for FileRecord {
    fn clone(&self) -> (res: Self)
        ensures
            res@ == self@,
    {
        let game_versions = self.game_versions.clone();
        let dependencies = self.dependencies.clone();
        proof {
            assert forall|i: int|
                0 <= i < game_versions@.len() implies game_versions@[i]
                == self.game_versions@[i] by {
                assert(cloned::<String>(self.game_versions@[i], game_versions@[i]));
            }
            assert forall|i: int|
                0 <= i < dependencies@.len() implies dependencies@[i]
                == self.dependencies@[i] by {
                assert(cloned::<DependencyEdge>(self.dependencies@[i], dependencies@[i]));
            }
            assert(game_versions.deep_view() =~~= self.game_versions.deep_view());
            assert(dependencies@ =~= self.dependencies@);
        }
        let res = FileRecord {
            id: self.id,
            download_url: self.download_url.clone(),
            file_name_on_disk: self.file_name_on_disk.clone(),
            file_length: self.file_length,
            game_versions,
            dependencies,
        };
        proof {
            assert(res@ =~~= self@);
        }
        res
    }
}

/// The per-version file information of one mod, in one of the two shapes the
/// catalog serves: either full file records embedded in the mod record, or
/// lightweight `(version, file id)` pointers that take a second fetch.
#[derive(Debug)]
pub enum VersionFiles {
    Embedded(Vec<FileRecord>),
    Pointers(Vec<VersionPointer>),
}

#[verifier::ext_equal]
pub ghost enum VersionFilesView {
    Embedded(Seq<FileRecordView>),
    Pointers(Seq<VersionPointerView>),
}

impl View for VersionFiles {
    type V = VersionFilesView;

    open spec fn view(&self) -> VersionFilesView {
        match self {
            VersionFiles::Embedded(files) => VersionFilesView::Embedded(files.deep_view()),
            VersionFiles::Pointers(pointers) => VersionFilesView::Pointers(pointers.deep_view()),
        }
    }
}

impl DeepView for VersionFiles {
    type V = VersionFilesView;

    open spec fn deep_view(&self) -> VersionFilesView {
        self.view()
    }
}

impl Clone for VersionFiles {
    fn clone(&self) -> (res: Self)
        ensures
            res@ == self@,
    {
        match self {
            VersionFiles::Embedded(files) => {
                let cloned_files = files.clone();
                proof {
                    assert forall|i: int|
                        0 <= i < cloned_files@.len() implies cloned_files@[i].deep_view()
                        =~~= files@[i].deep_view() by {
                        assert(cloned::<FileRecord>(files@[i], cloned_files@[i]));
                    }
                    assert(cloned_files.deep_view() =~~= files.deep_view());
                }
                VersionFiles::Embedded(cloned_files)
            },
            VersionFiles::Pointers(pointers) => {
                let cloned_pointers = pointers.clone();
                proof {
                    assert forall|i: int|
                        0 <= i < cloned_pointers@.len() implies cloned_pointers@[i].deep_view()
                        =~~= pointers@[i].deep_view() by {
                        assert(cloned::<VersionPointer>(pointers@[i], cloned_pointers@[i]));
                    }
                    assert(cloned_pointers.deep_view() =~~= pointers.deep_view());
                }
                VersionFiles::Pointers(cloned_pointers)
            },
        }
    }
}

/// One mod's metadata, as the catalog serves it and as the registry keeps it.
#[derive(Debug)]
pub struct ModRecord {
    pub id: u32,
    pub name: String,
    pub summary: String,
    pub website_url: String,
    pub download_count: u64,
    pub files: VersionFiles,
}

#[verifier::ext_equal]
pub ghost struct ModRecordView {
    pub id: u32,
    pub name: Seq<char>,
    pub summary: Seq<char>,
    pub website_url: Seq<char>,
    pub download_count: u64,
    pub files: VersionFilesView,
}

impl View for ModRecord {
    type V = ModRecordView;

    open spec fn view(&self) -> ModRecordView {
        ModRecordView {
            id: self.id,
            name: self.name@,
            summary: self.summary@,
            website_url: self.website_url@,
            download_count: self.download_count,
            files: self.files@,
        }
    }
}

impl DeepView for ModRecord {
    type V = ModRecordView;

    open spec fn deep_view(&self) -> ModRecordView {
        self.view()
    }
}

impl Clone for ModRecord {
    fn clone(&self) -> (res: Self)
        ensures
            res@ == self@,
    {
        let res = ModRecord {
            id: self.id,
            name: self.name.clone(),
            summary: self.summary.clone(),
            website_url: self.website_url.clone(),
            download_count: self.download_count,
            files: self.files.clone(),
        };
        proof {
            assert(res@ =~~= self@);
        }
        res
    }
}

/// What a mod record knows about the file for one version: either the full
/// record, or the file id to fetch.
#[derive(Debug)]
pub enum FileRef {
    Embedded(FileRecord),
    Pointer(u32),
}

#[verifier::ext_equal]
pub ghost enum FileRefView {
    Embedded(FileRecordView),
    Pointer(u32),
}

impl View for FileRef {
    type V = FileRefView;

    open spec fn view(&self) -> FileRefView {
        match self {
            FileRef::Embedded(file) => FileRefView::Embedded(file@),
            FileRef::Pointer(file_id) => FileRefView::Pointer(*file_id),
        }
    }
}

/// Whether `file` is a build for `version` (exact match against one of the
/// version strings the file lists).
pub open spec fn file_matches_version(file: FileRecordView, version: Seq<char>) -> bool {
    exists|i: int| 0 <= i < file.game_versions.len() && file.game_versions[i] == version
}

/// The first embedded file record that is a build for `version`.
pub open spec fn first_embedded(files: Seq<FileRecordView>, version: Seq<char>) -> Option<
    FileRecordView,
>
    decreases files.len(),
{
    if files.len() == 0 {
        None
    } else if file_matches_version(files[0], version) {
        Some(files[0])
    } else {
        first_embedded(files.drop_first(), version)
    }
}

/// The file id of the first pointer whose version is exactly `version`.
pub open spec fn first_pointer(pointers: Seq<VersionPointerView>, version: Seq<char>) -> Option<
    u32,
>
    decreases pointers.len(),
{
    if pointers.len() == 0 {
        None
    } else if pointers[0].version == version {
        Some(pointers[0].file_id)
    } else {
        first_pointer(pointers.drop_first(), version)
    }
}

impl ModRecordView {
    /// The reference sufficient to locate this mod's concrete file for
    /// `version`, or `None` when the mod has no build for that exact version.
    pub open spec fn file_ref(self, version: Seq<char>) -> Option<FileRefView> {
        match self.files {
            VersionFilesView::Embedded(files) => match first_embedded(files, version) {
                Some(file) => Some(FileRefView::Embedded(file)),
                None => None,
            },
            VersionFilesView::Pointers(pointers) => match first_pointer(pointers, version) {
                Some(file_id) => Some(FileRefView::Pointer(file_id)),
                None => None,
            },
        }
    }
}

impl ModRecord {
    pub fn file_reference_for(&self, version: &String) -> (r: Option<FileRef>)
        ensures
            match r {
                Some(file_ref) => self@.file_ref(version@) == Some(file_ref@),
                None => self@.file_ref(version@) is None,
            },
    {
        match &self.files {
            VersionFiles::Embedded(files) => {
                let ghost dv = files.deep_view();
                let mut i: usize = 0;
                proof {
                    assert(dv.skip(0) =~= dv);
                }
                while i < files.len()
                    invariant
                        0 <= i <= dv.len(),
                        dv.len() == files@.len(),
                        dv == files.deep_view(),
                        self@.files == VersionFilesView::Embedded(dv),
                        first_embedded(dv, version@) == first_embedded(
                            dv.skip(i as int),
                            version@,
                        ),
                    decreases dv.len() - i,
                {
                    proof {
                        assert(dv.skip(i as int)[0] == dv[i as int]);
                    }
                    if matches_version(&files[i], version) {
                        proof {
                            assert(first_embedded(dv, version@) == Some(dv[i as int]));
                        }
                        return Some(FileRef::Embedded(files[i].clone()));
                    }
                    proof {
                        assert(dv.skip(i as int).drop_first() =~= dv.skip(i + 1));
                    }
                    i = i + 1;
                }
                proof {
                    assert(dv.skip(i as int).len() == 0);
                }
                None
            },
            VersionFiles::Pointers(pointers) => {
                let ghost dv = pointers.deep_view();
                let mut i: usize = 0;
                proof {
                    assert(dv.skip(0) =~= dv);
                }
                while i < pointers.len()
                    invariant
                        0 <= i <= dv.len(),
                        dv.len() == pointers@.len(),
                        dv == pointers.deep_view(),
                        self@.files == VersionFilesView::Pointers(dv),
                        first_pointer(dv, version@) == first_pointer(dv.skip(i as int), version@),
                    decreases dv.len() - i,
                {
                    proof {
                        assert(dv.skip(i as int)[0] == dv[i as int]);
                    }
                    if pointers[i].version == *version {
                        proof {
                            assert(first_pointer(dv, version@) == Some(dv[i as int].file_id));
                        }
                        return Some(FileRef::Pointer(pointers[i].file_id));
                    }
                    proof {
                        assert(dv.skip(i as int).drop_first() =~= dv.skip(i + 1));
                    }
                    i = i + 1;
                }
                proof {
                    assert(dv.skip(i as int).len() == 0);
                }
                None
            },
        }
    }
}

/// Whether `file` lists `version` among its game versions.
pub fn matches_version(file: &FileRecord, version: &String) -> (b: bool)
    ensures
        b == file_matches_version(file@, version@),
{
    let mut i: usize = 0;
    while i < file.game_versions.len()
        invariant
            0 <= i <= file.game_versions@.len(),
            forall|j: int| 0 <= j < i ==> file.game_versions@[j]@ != version@,
        decreases file.game_versions@.len() - i,
    {
        if file.game_versions[i] == *version {
            proof {
                assert(file@.game_versions[i as int] == version@);
            }
            return true;
        }
        i = i + 1;
    }
    proof {
        assert forall|j: int| 0 <= j < file@.game_versions.len() implies file@.game_versions[j]
            != version@ by {
            assert(file@.game_versions[j] == file.game_versions@[j]@);
        }
    }
    false
}

/// The mod ids this file's dependency edges propagate to, in edge order:
/// the targets of its required and tool-type edges.
pub open spec fn propagate_targets(deps: Seq<DependencyEdge>) -> Seq<u32>
    decreases deps.len(),
{
    if deps.len() == 0 {
        Seq::empty()
    } else {
        let front = propagate_targets(deps.drop_last());
        if deps.last().kind.spec_propagates() {
            front.push(deps.last().target_mod_id)
        } else {
            front
        }
    }
}

/// Everything the download executor needs for one transfer: where the
/// payload lives, what the file is called on disk, and the expected length
/// when the catalog knows it.
#[derive(Debug)]
pub struct DownloadRequest {
    pub mod_id: u32,
    pub file_id: u32,
    pub url: String,
    pub file_name: String,
    pub file_length: Option<u64>,
}

#[verifier::ext_equal]
pub ghost struct DownloadRequestView {
    pub mod_id: u32,
    pub file_id: u32,
    pub url: Seq<char>,
    pub file_name: Seq<char>,
    pub file_length: Option<u64>,
}

impl View for DownloadRequest {
    type V = DownloadRequestView;

    open spec fn view(&self) -> DownloadRequestView {
        DownloadRequestView {
            mod_id: self.mod_id,
            file_id: self.file_id,
            url: self.url@,
            file_name: self.file_name@,
            file_length: self.file_length,
        }
    }
}

impl DeepView for DownloadRequest {
    type V = DownloadRequestView;

    open spec fn deep_view(&self) -> DownloadRequestView {
        self.view()
    }
}

/// The download request that fetching `file` on behalf of mod `mod_id`
/// amounts to.
pub open spec fn request_for(mod_id: u32, file: FileRecordView) -> DownloadRequestView {
    DownloadRequestView {
        mod_id,
        file_id: file.id,
        url: file.download_url,
        file_name: file.file_name_on_disk,
        file_length: file.file_length,
    }
}

impl DownloadRequest {
    pub fn new(mod_id: u32, file: &FileRecord) -> (r: Self)
        ensures
            r@ == request_for(mod_id, file@),
    {
        DownloadRequest {
            mod_id,
            file_id: file.id,
            url: file.download_url.clone(),
            file_name: file.file_name_on_disk.clone(),
            file_length: file.file_length,
        }
    }
}

impl Clone for DownloadRequest {
    fn clone(&self) -> (res: Self)
        ensures
            res@ == self@,
    {
        DownloadRequest {
            mod_id: self.mod_id,
            file_id: self.file_id,
            url: self.url.clone(),
            file_name: self.file_name.clone(),
            file_length: self.file_length,
        }
    }
}

} // verus!
