//! One package of the monorepo and the fingerprints of its input files.

use crate::file::content_digest;
use crate::file::fresh_model;
use crate::file::rechecked_model;
use crate::file::File;
use crate::file::FileIOError;
use crate::file::FileModel;
use crate::file::FileProbe;
use crate::file::ProbeModel;
use crate::name_map::NameMap;
use crate::package_json::PackageJson;
use crate::text::first_occurrences;
use crate::text::joined;
use crate::text::lemma_texts_push;
use crate::text::same_text;
use crate::text::texts;
use crate::text::Text;
use vstd::prelude::*;

verus! {

/// The fingerprints of the input files of a workspace, by path.
pub type WorkspaceFiles = NameMap<File>;

/// A package of the monorepo: its name, the directory it lies in, its
/// descriptor and the fingerprints of its input files.
#[derive(Debug)]
pub struct Workspace {
    pub name: String,
    pub path: String,
    pub files: WorkspaceFiles,
    pub package_json: PackageJson,
}

/// The fingerprints that a file map holds, by path.
pub open spec fn file_models(files: WorkspaceFiles) -> Map<Text, FileModel> {
    Map::new(|path: Text| files.has(path), |path: Text| files.value(path)@)
}

/// The models of a list of probes.
pub open spec fn probe_models(probes: Seq<FileProbe>) -> Seq<ProbeModel> {
    Seq::new(probes.len(), |i: int| probes[i]@)
}

/// The first probe of the file at `path`, if there is one.
pub open spec fn probe_for(probes: Seq<ProbeModel>, path: Text) -> Option<ProbeModel> {
    if exists|i: int| 0 <= i < probes.len() && probes[i].path == path {
        Some(
            probes[choose|i: int|
                0 <= i < probes.len() && probes[i].path == path && forall|j: int|
                    0 <= j < i ==> probes[j].path != path],
        )
    } else {
        None
    }
}

/// The path of the descriptor of the workspace in directory `root`.
pub open spec fn manifest_of(root: Text) -> Text {
    root + "/package.json"@
}

/// The input files of a pass: those that were resolved, then the descriptor
/// of the workspace, which is always one of them.
pub open spec fn tracked_inputs(resolved: Seq<Text>, root: Text) -> Seq<Text> {
    resolved.push(manifest_of(root))
}

/// What the pass makes of the input at `path`: whether it is dirty, and its
/// fingerprint now. A file that was not known is new and dirty; a known file
/// is rechecked. `None` where the file was not probed or the probe lacks what
/// is needed.
pub open spec fn checked(known: Map<Text, FileModel>, probes: Seq<ProbeModel>, path: Text)
    -> Option<(bool, FileModel)> {
    match probe_for(probes, path) {
        None => None,
        Some(probe) => if known.contains_key(path) {
            match rechecked_model(known[path], probe) {
                Some((dirty, file)) => Some(
                    (dirty, FileModel { path, hash: file.hash, modified: file.modified }),
                ),
                None => None,
            }
        } else {
            match fresh_model(path, probe) {
                Some(file) => Some((true, file)),
                None => None,
            }
        },
    }
}

/// Whether the pass finds the input at `path` dirty.
pub open spec fn dirty_at(known: Map<Text, FileModel>, probes: Seq<ProbeModel>, path: Text) -> bool {
    match checked(known, probes, path) {
        Some(c) => c.0,
        None => false,
    }
}

/// Whether one of the first `upto` inputs is dirty.
pub open spec fn any_dirty(
    known: Map<Text, FileModel>,
    probes: Seq<ProbeModel>,
    inputs: Seq<Text>,
    upto: int,
) -> bool {
    exists|i: int| 0 <= i < upto && #[trigger] dirty_at(known, probes, inputs[i])
}

/// Whether `files` holds, for exactly the first `upto` inputs, what the pass
/// makes of each.
pub open spec fn holds_checked(
    files: WorkspaceFiles,
    known: Map<Text, FileModel>,
    probes: Seq<ProbeModel>,
    inputs: Seq<Text>,
    upto: int,
) -> bool {
    &&& files.wf()
    &&& files.keys() == first_occurrences(inputs, upto)
    &&& forall|i: int| 0 <= i < upto ==> (#[trigger] checked(known, probes, inputs[i])) is Some
    &&& forall|path: Text|
        files.has(path) <==> exists|i: int| 0 <= i < upto && #[trigger] inputs[i] == path
    &&& forall|path: Text|
        files.has(path) ==> Some((#[trigger] files.value(path))@) == match checked(
            known,
            probes,
            path,
        ) {
            Some(c) => Some(c.1),
            None => None,
        }
}

/// Whether the input at place `at` is the first that the pass cannot check.
pub open spec fn first_unchecked(
    known: Map<Text, FileModel>,
    probes: Seq<ProbeModel>,
    inputs: Seq<Text>,
    at: int,
) -> bool {
    &&& 0 <= at < inputs.len()
    &&& checked(known, probes, inputs[at]) is None
    &&& forall|j: int| 0 <= j < at ==> (#[trigger] checked(known, probes, inputs[j])) is Some
}

/// The first probe of the file at `path`.
fn find_probe<'a>(probes: &'a Vec<FileProbe>, path: &String) -> (found: Option<&'a FileProbe>)
    ensures
        match found {
            Some(probe) => probe_for(probe_models(probes@), path@) == Some(probe@),
            None => probe_for(probe_models(probes@), path@) is None,
        },
{
    let ghost models = probe_models(probes@);
    let mut i: usize = 0;
    while i < probes.len()
        invariant
            i <= probes.len(),
            models == probe_models(probes@),
            forall|j: int| 0 <= j < i ==> models[j].path != path@,
        decreases probes.len() - i,
    {
        if same_text(&probes[i].path, path) {
            proof {
                assert(models[i as int].path == path@);
                let at = choose|at: int|
                    0 <= at < models.len() && models[at].path == path@ && forall|j: int|
                        0 <= j < at ==> models[j].path != path@;
                assert(at == i);
            }
            return Some(&probes[i]);
        }
        i += 1;
    }
    None
}

/// One more input keeps `holds_checked`.
proof fn lemma_holds_checked_step(
    before: WorkspaceFiles,
    after: WorkspaceFiles,
    known: Map<Text, FileModel>,
    probes: Seq<ProbeModel>,
    inputs: Seq<Text>,
    upto: int,
    dirty: bool,
    file: File,
)
    requires
        0 <= upto < inputs.len(),
        holds_checked(before, known, probes, inputs, upto),
        after.wf(),
        after.as_map() == before.as_map().insert(inputs[upto], file),
        before.has(inputs[upto]) ==> after.keys() == before.keys(),
        !before.has(inputs[upto]) ==> after.keys() == before.keys().push(inputs[upto]),
        checked(known, probes, inputs[upto]) == Some((dirty, file@)),
    ensures
        holds_checked(after, known, probes, inputs, upto + 1),
{
    let path = inputs[upto];
    assert(after.keys() == first_occurrences(inputs, upto + 1));
    assert forall|other: Text|
        after.has(other) <==> exists|m: int|
            0 <= m < upto + 1 && #[trigger] inputs[m] == other by {
        assert(after.as_map().contains_key(other) == after.has(other));
        assert(before.as_map().contains_key(other) == before.has(other));
        if before.has(other) {
            let m = choose|m: int| 0 <= m < upto && #[trigger] inputs[m] == other;
            assert(0 <= m < upto + 1 && inputs[m] == other);
        }
        if other == path {
            assert(inputs[upto] == other);
        }
    }
    assert forall|other: Text| after.has(other) implies Some((#[trigger] after.value(other))@)
        == match checked(known, probes, other) {
        Some(c) => Some(c.1),
        None => None,
    } by {
        assert(after.as_map().contains_key(other));
        assert(after.as_map()[other] == after.value(other));
        if other != path {
            assert(before.as_map().contains_key(other) == before.has(other));
            assert(before.as_map()[other] == before.value(other));
        }
    }
}

/// One more input is dirty, or the dirt lies among those before it.
proof fn lemma_any_dirty_step(
    known: Map<Text, FileModel>,
    probes: Seq<ProbeModel>,
    inputs: Seq<Text>,
    upto: int,
)
    requires
        0 <= upto < inputs.len(),
    ensures
        any_dirty(known, probes, inputs, upto + 1) == (any_dirty(known, probes, inputs, upto)
            || dirty_at(known, probes, inputs[upto])),
{
    if any_dirty(known, probes, inputs, upto + 1) {
        let m = choose|m: int| 0 <= m < upto + 1 && #[trigger] dirty_at(known, probes, inputs[m]);
        if m < upto {
            assert(any_dirty(known, probes, inputs, upto));
        }
    }
    if any_dirty(known, probes, inputs, upto) {
        let m = choose|m: int| 0 <= m < upto && #[trigger] dirty_at(known, probes, inputs[m]);
        assert(0 <= m < upto + 1 && dirty_at(known, probes, inputs[m]));
    }
    if dirty_at(known, probes, inputs[upto]) {
        assert(0 <= upto < upto + 1 && dirty_at(known, probes, inputs[upto]));
    }
}

impl Workspace {
    /// The workspace in directory `path`, described by `package_json`, with
    /// no file tracked yet.
    pub fn new(path: String, package_json: PackageJson) -> (workspace: Workspace)
        ensures
            workspace.name@ == package_json.name@,
            workspace.path == path,
            workspace.package_json == package_json,
            workspace.files.wf(),
            file_models(workspace.files) == Map::<Text, FileModel>::empty(),
    {
        let workspace = Workspace {
            name: package_json.name.clone(),
            path,
            files: NameMap::new(),
            package_json,
        };
        assert(file_models(workspace.files) =~= Map::<Text, FileModel>::empty());
        workspace
    }

    /// Replaces the tracked fingerprints as a whole.
    pub fn set_files(&mut self, files: WorkspaceFiles)
        ensures
            final(self).files == files,
            final(self).name == old(self).name,
            final(self).path == old(self).path,
            final(self).package_json == old(self).package_json,
    {
        self.files = files;
    }

    /// The path of the descriptor of this workspace.
    pub fn manifest_path(&self) -> (path: String)
        ensures
            path@ == manifest_of(self.path@),
    {
        joined(&self.path, "/package.json")
    }

    /// Whether the content of the input at `path` must be read for the next
    /// pass: where the file is not tracked yet, or was changed since.
    pub fn needs_content(&self, path: &String, modified: u128) -> (needed: bool)
        ensures
            needed == (!self.files.has(path@) || self.files.value(path@).modified != modified),
    {
        match self.files.get(path) {
            Some(file) => file.needs_content(modified),
            None => true,
        }
    }

    /// What the pass makes of the input at `path`.
    pub fn check_input(&self, path: &String, probes: &Vec<FileProbe>) -> (outcome: Option<
        (bool, File),
    >)
        ensures
            match outcome {
                Some((dirty, file)) => checked(file_models(self.files), probe_models(probes@), path@)
                    == Some((dirty, file@)),
                None => checked(file_models(self.files), probe_models(probes@), path@) is None,
            },
    {
        match find_probe(probes, path) {
            None => None,
            Some(probe) => match self.files.get(path) {
                Some(known) => match known.invalidate(probe) {
                    Ok((dirty, file)) => Some(
                        (
                            dirty,
                            File { path: path.clone(), hash: file.hash, modified: file.modified },
                        ),
                    ),
                    Err(_) => None,
                },
                None => match File::fresh(path, probe) {
                    Ok(file) => Some((true, file)),
                    Err(_) => None,
                },
            },
        }
    }

    /// One invalidation pass over the resolved inputs and the descriptor.
    /// The workspace is dirty where any input is; the new fingerprints are
    /// those of the inputs of this pass and of no other file. A pass fails on
    /// the first input that could not be checked.
    pub fn invalidate(&self, resolved_inputs: Vec<String>, probes: &Vec<FileProbe>) -> (result:
        Result<(bool, WorkspaceFiles), FileIOError>)
        ensures
            ({
                let known = file_models(self.files);
                let seen = probe_models(probes@);
                let inputs = tracked_inputs(texts(resolved_inputs@), self.path@);
                match result {
                    Ok((dirty, files)) => {
                        &&& holds_checked(files, known, seen, inputs, inputs.len() as int)
                        &&& dirty == any_dirty(known, seen, inputs, inputs.len() as int)
                    },
                    Err(e) => exists|i: int|
                        #[trigger] first_unchecked(known, seen, inputs, i) && inputs[i] == e.path@,
                }
            }),
    {
        let ghost known = file_models(self.files);
        let ghost seen = probe_models(probes@);
        let ghost inputs = tracked_inputs(texts(resolved_inputs@), self.path@);
        let mut all_inputs = resolved_inputs;
        let manifest = self.manifest_path();
        proof {
            lemma_texts_push(all_inputs@, manifest);
        }
        all_inputs.push(manifest);
        assert(texts(all_inputs@) == inputs);
        let mut new_files: WorkspaceFiles = NameMap::new();
        assert(new_files.keys() =~= first_occurrences(inputs, 0));
        let mut is_dirty = false;
        let mut i: usize = 0;
        while i < all_inputs.len()
            invariant
                i <= all_inputs.len(),
                texts(all_inputs@) == inputs,
                inputs == tracked_inputs(texts(resolved_inputs@), self.path@),
                known == file_models(self.files),
                seen == probe_models(probes@),
                holds_checked(new_files, known, seen, inputs, i as int),
                is_dirty == any_dirty(known, seen, inputs, i as int),
            decreases all_inputs.len() - i,
        {
            let path = &all_inputs[i];
            assert(path@ == inputs[i as int]);
            match self.check_input(path, probes) {
                None => {
                    assert(first_unchecked(known, seen, inputs, i as int));
                    return Err(FileIOError { path: path.clone() });
                },
                Some((dirty, file)) => {
                    let ghost before = new_files;
                    proof {
                        lemma_any_dirty_step(known, seen, inputs, i as int);
                    }
                    if dirty {
                        is_dirty = true;
                    }
                    new_files.insert(path.clone(), file);
                    proof {
                        lemma_holds_checked_step(
                            before,
                            new_files,
                            known,
                            seen,
                            inputs,
                            i as int,
                            dirty,
                            file,
                        );
                    }
                },
            }
            i += 1;
        }
        Ok((is_dirty, new_files))
    }
}

/// A file as it lies on disk: the time of its last change and its content.
pub struct DiskFile {
    pub modified: u128,
    pub content: Text,
}

/// Whether a probe says of its file what lies on disk: the file is there,
/// the time is the one on disk, and the content, where it was read, too.
pub open spec fn reflects(disk: Map<Text, DiskFile>, probe: ProbeModel) -> bool {
    &&& disk.contains_key(probe.path)
    &&& probe.modified == Some(disk[probe.path].modified)
    &&& probe.content is Some ==> probe.content == Some(disk[probe.path].content)
}

/// Whether the file at `path` was probed, and the probe says what lies on
/// disk.
pub open spec fn seen_as_on(disk: Map<Text, DiskFile>, probes: Seq<ProbeModel>, path: Text) -> bool {
    match probe_for(probes, path) {
        Some(probe) => reflects(disk, probe),
        None => false,
    }
}

/// Whether every input was probed, and each probe says what lies on disk.
pub open spec fn all_reflect(disk: Map<Text, DiskFile>, probes: Seq<ProbeModel>, inputs: Seq<Text>)
    -> bool {
    forall|i: int| 0 <= i < inputs.len() ==> #[trigger] seen_as_on(disk, probes, inputs[i])
}

/// The probe found for a path is a probe of that path.
pub proof fn lemma_probe_for(probes: Seq<ProbeModel>, path: Text)
    ensures
        probe_for(probes, path) matches Some(probe) ==> probe.path == path,
{
    if exists|i: int| 0 <= i < probes.len() && probes[i].path == path {
        let at = choose|at: int| 0 <= at < probes.len() && probes[at].path == path;
        lemma_first_probe(probes, path, at);
    }
}

/// Below a probe of `path` lies the first probe of it.
proof fn lemma_first_probe(probes: Seq<ProbeModel>, path: Text, at: int)
    requires
        0 <= at < probes.len(),
        probes[at].path == path,
    ensures
        exists|i: int|
            0 <= i < probes.len() && probes[i].path == path && forall|j: int|
                0 <= j < i ==> probes[j].path != path,
    decreases at,
{
    if exists|j: int| 0 <= j < at && probes[j].path == path {
        let j = choose|j: int| 0 <= j < at && probes[j].path == path;
        lemma_first_probe(probes, path, j);
    } else {
        assert(0 <= at < probes.len() && probes[at].path == path && forall|j: int|
            0 <= j < at ==> probes[j].path != path);
    }
}

/// A workspace that tracks no file yet is dirty after its first pass: its
/// descriptor, at the least, is new.
pub proof fn lemma_first_pass_is_dirty(
    known: Map<Text, FileModel>,
    probes: Seq<ProbeModel>,
    resolved: Seq<Text>,
    root: Text,
)
    requires
        known == Map::<Text, FileModel>::empty(),
        checked(known, probes, manifest_of(root)) is Some,
    ensures
        any_dirty(
            known,
            probes,
            tracked_inputs(resolved, root),
            tracked_inputs(resolved, root).len() as int,
        ),
{
    let inputs = tracked_inputs(resolved, root);
    let last = inputs.len() - 1;
    assert(inputs[last] == manifest_of(root));
    assert(dirty_at(known, probes, inputs[last]));
}

/// A tracked file whose time has changed and whose content hashes as before
/// is not dirty: the hash decides, not the time.
pub proof fn lemma_touched_file_is_clean(known: FileModel, probe: ProbeModel, content: Text)
    requires
        probe.modified is Some,
        probe.modified != Some(known.modified),
        probe.content == Some(content),
        content_digest(content) == known.hash,
    ensures
        rechecked_model(known, probe) matches Some(outcome) && !outcome.0 && outcome.1.hash
            == known.hash,
{
}

/// A pass over tracked files of which none has a new hash leaves the
/// workspace clean, whatever their times say.
pub proof fn lemma_unchanged_hashes_are_clean(
    known: Map<Text, FileModel>,
    probes: Seq<ProbeModel>,
    inputs: Seq<Text>,
)
    requires
        forall|i: int|
            0 <= i < inputs.len() ==> known.contains_key(#[trigger] inputs[i]) && (match probe_for(
                probes,
                inputs[i],
            ) {
                Some(probe) => probe.modified == Some(known[inputs[i]].modified) || (
                probe.content matches Some(content) && content_digest(content)
                    == known[inputs[i]].hash),
                None => true,
            }),
    ensures
        !any_dirty(known, probes, inputs, inputs.len() as int),
{
    assert forall|i: int| 0 <= i < inputs.len() implies !#[trigger] dirty_at(
        known,
        probes,
        inputs[i],
    ) by {
        assert(known.contains_key(inputs[i]));
    }
}

/// A second pass over the same inputs, with nothing changed on disk in
/// between, succeeds, finds the workspace clean and keeps every fingerprint.
pub proof fn lemma_second_pass_is_clean(
    disk: Map<Text, DiskFile>,
    known: Map<Text, FileModel>,
    first: Seq<ProbeModel>,
    second: Seq<ProbeModel>,
    inputs: Seq<Text>,
    files: WorkspaceFiles,
)
    requires
        all_reflect(disk, first, inputs),
        all_reflect(disk, second, inputs),
        holds_checked(files, known, first, inputs, inputs.len() as int),
    ensures
        forall|i: int|
            0 <= i < inputs.len() ==> #[trigger] checked(file_models(files), second, inputs[i])
                == Some((false, files.value(inputs[i])@)),
        !any_dirty(file_models(files), second, inputs, inputs.len() as int),
{
    let after = file_models(files);
    assert forall|i: int| 0 <= i < inputs.len() implies #[trigger] checked(
        after,
        second,
        inputs[i],
    ) == Some((false, files.value(inputs[i])@)) by {
        let path = inputs[i];
        lemma_probe_for(first, path);
        lemma_probe_for(second, path);
        assert(checked(known, first, inputs[i]) is Some);
        assert(files.has(path));
        assert(after.contains_key(path));
        assert(after[path] == files.value(path)@);
        assert(seen_as_on(disk, first, inputs[i]));
        assert(seen_as_on(disk, second, inputs[i]));
        assert(files.value(path)@.modified == disk[path].modified);
        assert(files.value(path)@.path == path);
    }
    assert forall|i: int| 0 <= i < inputs.len() implies !#[trigger] dirty_at(
        after,
        second,
        inputs[i],
    ) by {
        assert(checked(after, second, inputs[i]) == Some((false, files.value(inputs[i])@)));
    }
}

impl Clone for NameMap<File> {
    fn clone(&self) -> (copy: Self)
        ensures
            copy.entries@ == self.entries@,
    {
        let mut entries: Vec<(String, File)> = Vec::new();
        let mut i: usize = 0;
        while i < self.entries.len()
            invariant
                i <= self.entries.len(),
                entries@ == self.entries@.subrange(0, i as int),
            decreases self.entries.len() - i,
        {
            let entry = (self.entries[i].0.clone(), self.entries[i].1.clone());
            assert(entry == self.entries@[i as int]);
            entries.push(entry);
            assert(entries@ =~= self.entries@.subrange(0, i + 1));
            i += 1;
        }
        assert(entries@ =~= self.entries@);
        NameMap { entries }
    }
}

impl Workspace {
    /// Whether two workspaces hold the same.
    pub open spec fn same(&self, other: &Workspace) -> bool {
        &&& self.name == other.name
        &&& self.path == other.path
        &&& self.files.entries@ == other.files.entries@
        &&& self.package_json.same(&other.package_json)
    }
}

impl Clone for Workspace {
    fn clone(&self) -> (copy: Self)
        ensures
            copy.same(self),
    {
        Workspace {
            name: self.name.clone(),
            path: self.path.clone(),
            files: self.files.clone(),
            package_json: self.package_json.clone(),
        }
    }
}

} // verus!
