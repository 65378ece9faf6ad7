//! The root package with its workspaces, and what one invalidation pass
//! makes of them.

use crate::file::FileIOError;
use crate::file::FileModel;
use crate::file::FileProbe;
use crate::file::ProbeModel;
use crate::name_map::NameMap;
use crate::package_json::PackageJson;
use crate::text::first_occurrences;
use crate::text::joined;
use crate::text::texts;
use crate::text::Text;
use crate::workspace::any_dirty;
use crate::workspace::checked;
use crate::workspace::file_models;
use crate::workspace::first_unchecked;
use crate::workspace::holds_checked;
use crate::workspace::probe_models;
use crate::workspace::tracked_inputs;
use crate::workspace::Workspace;
use crate::workspace::WorkspaceFiles;
use vstd::prelude::*;

verus! {

/// The root of the monorepo: its directory, its descriptor, and its
/// workspaces by name.
#[derive(Debug)]
pub struct Project {
    pub path: String,
    pub pkg_json: PackageJson,
    pub workspaces: NameMap<Workspace>,
}

/// Two workspaces carry the same name.
#[derive(Debug)]
pub struct DuplicateWorkspaceName {
    pub name: String,
}

/// The names of a list of workspaces, in order.
pub open spec fn workspace_names(list: Seq<Workspace>) -> Seq<Text> {
    Seq::new(list.len(), |i: int| list[i].name@)
}

/// Whether the name at place `at` is the first that stands in `names` for
/// the second time.
pub open spec fn first_repeat(names: Seq<Text>, at: int) -> bool {
    &&& 0 <= at < names.len()
    &&& names.subrange(0, at).no_duplicates()
    &&& names.subrange(0, at).contains(names[at])
}

/// The first `upto` workspaces of a list by name. Of two with the same name
/// the later stands.
pub open spec fn by_name(list: Seq<Workspace>, upto: int) -> Map<Text, Workspace>
    decreases upto,
{
    if upto <= 0 {
        Map::empty()
    } else {
        by_name(list, upto - 1).insert(list[upto - 1].name@, list[upto - 1])
    }
}

/// The pattern under which the descriptors of the workspaces of one glob
/// are looked for.
pub open spec fn manifest_pattern_of(root: Text, glob: Text) -> Text {
    root + "/"@ + glob + "/package.json"@
}

/// The pattern under which the descriptors of the workspaces of `glob` are
/// looked for below `root`.
pub fn manifest_pattern(root: &String, glob: &String) -> (pattern: String)
    ensures
        pattern@ == manifest_pattern_of(root@, glob@),
{
    let below = joined(root, "/");
    let inside = joined(&below, glob.as_str());
    joined(&inside, "/package.json")
}

/// The list of paths that `serde_json` reads out of a payload: `None` where
/// the payload is no JSON array of strings.
pub uninterp spec fn resolved_paths(payload: Seq<char>) -> Option<Seq<Seq<char>>>;

/// Calls `serde_json::from_str` for a list of strings. What it reads depends
/// on the payload alone, so the outcome is `resolved_paths` of it; a payload
/// that it refuses gives `None`.
#[verifier::external_body]
pub(crate) fn parse_paths(payload: &String) -> (paths: Option<Vec<String>>)
    ensures
        match paths {
            Some(list) => resolved_paths(payload@) == Some(texts(list@)),
            None => resolved_paths(payload@) is None,
        },
{
    serde_json::from_str::<Vec<String>>(payload).ok()
}

/// The input paths that the resolver answered with.
pub fn resolved_inputs(payload: &String) -> (paths: Option<Vec<String>>)
    ensures
        match paths {
            Some(list) => resolved_paths(payload@) == Some(texts(list@)),
            None => resolved_paths(payload@) is None,
        },
{
    parse_paths(payload)
}

impl Project {
    /// The project in directory `path` with the workspaces of
    /// `workspaces_list`. Two workspaces with one name are refused.
    pub fn new(path: String, pkg_json: PackageJson, workspaces_list: Vec<Workspace>) -> (result:
        Result<Project, DuplicateWorkspaceName>)
        ensures
            match result {
                Ok(project) => {
                    &&& workspace_names(workspaces_list@).no_duplicates()
                    &&& project.path == path
                    &&& project.pkg_json == pkg_json
                    &&& project.workspaces.wf()
                    &&& project.workspaces.keys() == workspace_names(workspaces_list@)
                    &&& project.workspaces.entries@.len() == workspaces_list@.len()
                    &&& forall|i: int|
                        0 <= i < workspaces_list@.len() ==> (
                        #[trigger] project.workspaces.entries@[i]).1 == workspaces_list@[i]
                },
                Err(e) => exists|at: int|
                    #[trigger] first_repeat(workspace_names(workspaces_list@), at)
                        && workspace_names(workspaces_list@)[at] == e.name@,
            },
    {
        let ghost names = workspace_names(workspaces_list@);
        let mut workspaces: NameMap<Workspace> = NameMap::new();
        assert(workspaces.keys() =~= names.subrange(0, 0));
        for workspace in it: workspaces_list.into_iter()
            invariant
                it.seq() == workspaces_list@,
                names == workspace_names(workspaces_list@),
                workspaces.wf(),
                workspaces.keys() == names.subrange(0, it.index() as int),
                workspaces.entries@.len() == it.index(),
                forall|i: int|
                    0 <= i < it.index() ==> (#[trigger] workspaces.entries@[i]).1
                        == workspaces_list@[i],
        {
            let ghost at = it.index() as int;
            let ghost before = workspaces;
            assert(names[at] == workspace.name@);
            if workspaces.contains_key(&workspace.name) {
                assert(first_repeat(names, at));
                return Err(DuplicateWorkspaceName { name: workspace.name });
            }
            let name = workspace.name.clone();
            workspaces.insert(name, workspace);
            proof {
                assert(names.subrange(0, at).push(names[at]) =~= names.subrange(0, at + 1));
                assert(workspaces.entries@.len() == workspaces.keys().len());
                workspaces.lemma_place(at);
                assert forall|i: int| 0 <= i < at + 1 implies (#[trigger] workspaces.entries@[i]).1
                    == workspaces_list@[i] by {
                    assert(workspaces.keys()[i] == names[i]);
                    workspaces.lemma_place(i);
                    if i < at {
                        assert(before.keys()[i] == names[i]);
                        before.lemma_place(i);
                        assert(before.as_map()[names[i]] == before.value(names[i]));
                        assert(workspaces.as_map()[names[i]] == workspaces.value(names[i]));
                    } else {
                        assert(workspaces.as_map()[names[i]] == workspaces.value(names[i]));
                    }
                }
            }
        }
        assert(names.subrange(0, names.len() as int) =~= names);
        Ok(Project { path, pkg_json, workspaces })
    }

    /// The state with which `current` enters a pass: what the project
    /// recorded under its name, or `current` itself where it is new.
    pub fn state_for_pass(&self, current: Workspace) -> (state: Workspace)
        ensures
            if self.workspaces.has(current.name@) {
                state.same(&self.workspaces.value(current.name@))
            } else {
                state == current
            },
    {
        match self.workspaces.get(&current.name) {
            Some(recorded) => recorded.clone(),
            None => current,
        }
    }

    /// Replaces the workspaces of the project as a whole by those of
    /// `workspaces`.
    pub fn replace_workspaces(&mut self, workspaces: Vec<Workspace>)
        ensures
            final(self).path == old(self).path,
            final(self).pkg_json == old(self).pkg_json,
            final(self).workspaces.wf(),
            final(self).workspaces.as_map() == by_name(workspaces@, workspaces@.len() as int),
            final(self).workspaces.keys() == first_occurrences(
                workspace_names(workspaces@),
                workspaces@.len() as int,
            ),
    {
        let ghost names = workspace_names(workspaces@);
        let mut replaced: NameMap<Workspace> = NameMap::new();
        assert(replaced.keys() =~= first_occurrences(names, 0));
        for workspace in it: workspaces.into_iter()
            invariant
                it.seq() == workspaces@,
                names == workspace_names(workspaces@),
                replaced.wf(),
                replaced.as_map() == by_name(workspaces@, it.index() as int),
                replaced.keys() == first_occurrences(names, it.index() as int),
        {
            assert(names[it.index() as int] == workspace.name@);
            let name = workspace.name.clone();
            replaced.insert(name, workspace);
        }
        self.workspaces = replaced;
    }
}

/// Why a workspace could not be invalidated.
#[derive(Debug)]
pub enum InvalidationError {
    /// The resolver gave no list of input paths.
    Unresolved,
    /// An input file could not be read.
    Unreadable(FileIOError),
}

/// What a pass has gathered: every workspace in its state after the pass,
/// the names of those that came back dirty, and those that failed, each with
/// the reason.
#[derive(Debug)]
pub struct PassReport {
    pub workspaces: Vec<Workspace>,
    pub updated: Vec<String>,
    pub failed: Vec<(String, InvalidationError)>,
}

impl PassReport {
    /// The report of a pass in which nothing has happened yet.
    pub fn new() -> (report: PassReport)
        ensures
            report.workspaces@.len() == 0,
            report.updated@.len() == 0,
            report.failed@.len() == 0,
    {
        PassReport { workspaces: Vec::new(), updated: Vec::new(), failed: Vec::new() }
    }

    /// Takes in what the pass made of one workspace. A workspace that was
    /// checked gets the new fingerprints, and its name is noted where it is
    /// dirty. One that failed keeps its state and is noted with the reason.
    pub fn record(
        &mut self,
        workspace: Workspace,
        outcome: Result<(bool, WorkspaceFiles), InvalidationError>,
    )
        ensures
            match outcome {
                Ok((dirty, files)) => {
                    &&& final(self).workspaces@ == old(self).workspaces@.push(
                        Workspace {
                            name: workspace.name,
                            path: workspace.path,
                            files,
                            package_json: workspace.package_json,
                        },
                    )
                    &&& final(self).updated@ == if dirty {
                        old(self).updated@.push(workspace.name)
                    } else {
                        old(self).updated@
                    }
                    &&& final(self).failed@ == old(self).failed@
                },
                Err(e) => {
                    &&& final(self).workspaces@ == old(self).workspaces@.push(workspace)
                    &&& final(self).updated@ == old(self).updated@
                    &&& final(self).failed@ == old(self).failed@.push((workspace.name, e))
                },
            },
    {
        match outcome {
            Ok((dirty, files)) => {
                let mut workspace = workspace;
                if dirty {
                    self.updated.push(workspace.name.clone());
                }
                workspace.set_files(files);
                self.workspaces.push(workspace);
            },
            Err(e) => {
                self.failed.push((workspace.name.clone(), e));
                self.workspaces.push(workspace);
            },
        }
    }
}

/// What a pass makes of one workspace.
pub enum Settled {
    /// The resolver gave no list of inputs for it.
    Unresolved,
    /// The input at this path could not be checked.
    Unreadable(Text),
    /// Every input was checked; the workspace is dirty or not.
    Checked(bool),
}

/// The model of a reason of failure.
pub open spec fn reason_model(reason: InvalidationError) -> Settled {
    match reason {
        InvalidationError::Unresolved => Settled::Unresolved,
        InvalidationError::Unreadable(e) => Settled::Unreadable(e.path@),
    }
}

/// The models of a list of failures.
pub open spec fn failure_models(failed: Seq<(String, InvalidationError)>) -> Seq<(Text, Settled)> {
    Seq::new(failed.len(), |i: int| (failed[i].0@, reason_model(failed[i].1)))
}

/// The state with which `current` enters a pass: what the project recorded
/// under its name, or `current` itself where it is new.
pub open spec fn entering(project: Project, current: Workspace) -> Workspace {
    if project.workspaces.has(current.name@) {
        project.workspaces.value(current.name@)
    } else {
        current
    }
}

/// The inputs of the workspace called `name` in directory `root`: what the
/// resolver answered for it, then its descriptor. `None` where there is no
/// answer or the answer is no list of paths.
pub open spec fn inputs_for(answers: NameMap<String>, name: Text, root: Text) -> Option<Seq<Text>> {
    if answers.has(name) {
        match resolved_paths(answers.value(name)@) {
            Some(resolved) => Some(tracked_inputs(resolved, root)),
            None => None,
        }
    } else {
        None
    }
}

/// Whether the pass can check every input.
pub open spec fn all_checked(known: Map<Text, FileModel>, probes: Seq<ProbeModel>, inputs: Seq<Text>)
    -> bool {
    forall|i: int| 0 <= i < inputs.len() ==> (#[trigger] checked(known, probes, inputs[i])) is Some
}

/// What the pass makes of a workspace that enters it as `state`.
pub open spec fn settled(state: Workspace, answers: NameMap<String>, probes: Seq<ProbeModel>)
    -> Settled {
    match inputs_for(answers, state.name@, state.path@) {
        None => Settled::Unresolved,
        Some(inputs) => {
            let known = file_models(state.files);
            if all_checked(known, probes, inputs) {
                Settled::Checked(any_dirty(known, probes, inputs, inputs.len() as int))
            } else {
                Settled::Unreadable(
                    inputs[choose|at: int| first_unchecked(known, probes, inputs, at)],
                )
            }
        },
    }
}

/// The names of those of the first `upto` workspaces that the pass finds
/// dirty, in order.
pub open spec fn dirty_names(
    project: Project,
    current: Seq<Workspace>,
    answers: NameMap<String>,
    probes: Seq<ProbeModel>,
    upto: int,
) -> Seq<Text>
    decreases upto,
{
    if upto <= 0 {
        Seq::empty()
    } else {
        let state = entering(project, current[upto - 1]);
        let before = dirty_names(project, current, answers, probes, upto - 1);
        if settled(state, answers, probes) == Settled::Checked(true) {
            before.push(state.name@)
        } else {
            before
        }
    }
}

/// Those of the first `upto` workspaces on which the pass fails, each with
/// what it made of it, in order.
pub open spec fn failures(
    project: Project,
    current: Seq<Workspace>,
    answers: NameMap<String>,
    probes: Seq<ProbeModel>,
    upto: int,
) -> Seq<(Text, Settled)>
    decreases upto,
{
    if upto <= 0 {
        Seq::empty()
    } else {
        let state = entering(project, current[upto - 1]);
        let before = failures(project, current, answers, probes, upto - 1);
        if settled(state, answers, probes) is Checked {
            before
        } else {
            before.push((state.name@, settled(state, answers, probes)))
        }
    }
}

/// Whether `after` is what the pass leaves of a workspace that entered it as
/// `state`: the same workspace, with the fingerprints of this pass where
/// every input was checked, and with those it had where not.
pub open spec fn left_as(
    state: Workspace,
    answers: NameMap<String>,
    probes: Seq<ProbeModel>,
    after: Workspace,
) -> bool {
    &&& after.name == state.name
    &&& after.path == state.path
    &&& after.package_json.same(&state.package_json)
    &&& match inputs_for(answers, state.name@, state.path@) {
        Some(inputs) if all_checked(file_models(state.files), probes, inputs) => holds_checked(
            after.files,
            file_models(state.files),
            probes,
            inputs,
            inputs.len() as int,
        ),
        _ => after.files.entries@ == state.files.entries@,
    }
}

impl Project {
    /// Takes one workspace through the pass: picks the state with which it
    /// enters, reads the answer of the resolver, and checks its inputs.
    pub fn settle(&self, current: Workspace, answers: &NameMap<String>, probes: &Vec<FileProbe>)
        -> (taken: (Workspace, Result<(bool, WorkspaceFiles), InvalidationError>))
        ensures
            taken.0.same(&entering(*self, current)),
            match taken.1 {
                Ok((dirty, files)) => {
                    &&& settled(entering(*self, current), *answers, probe_models(probes@))
                        == Settled::Checked(dirty)
                    &&& inputs_for(*answers, taken.0.name@, taken.0.path@) matches Some(inputs)
                        && holds_checked(
                        files,
                        file_models(taken.0.files),
                        probe_models(probes@),
                        inputs,
                        inputs.len() as int,
                    )
                },
                Err(reason) => settled(entering(*self, current), *answers, probe_models(probes@))
                    == reason_model(reason),
            },
    {
        let state = self.state_for_pass(current);
        let ghost model = entering(*self, current);
        let ghost seen = probe_models(probes@);
        assert(state.same(&model));
        assert(file_models(state.files) =~= file_models(model.files));
        let outcome = match answers.get(&state.name) {
            None => Err(InvalidationError::Unresolved),
            Some(payload) => match resolved_inputs(payload) {
                None => Err(InvalidationError::Unresolved),
                Some(resolved) => {
                    let ghost inputs = tracked_inputs(texts(resolved@), state.path@);
                    let ghost known = file_models(state.files);
                    assert(inputs_for(*answers, state.name@, state.path@) == Some(inputs));
                    match state.invalidate(resolved, probes) {
                        Ok(checked) => {
                            assert(all_checked(known, seen, inputs));
                            Ok(checked)
                        },
                        Err(e) => {
                            proof {
                                let at = choose|at: int|
                                    #[trigger] first_unchecked(known, seen, inputs, at)
                                        && inputs[at] == e.path@;
                                assert(!all_checked(known, seen, inputs));
                                let chosen = choose|c: int| first_unchecked(known, seen, inputs, c);
                                assert(chosen == at) by {
                                    if chosen < at {
                                        assert(checked(known, seen, inputs[chosen]) is Some);
                                    }
                                    if at < chosen {
                                        assert(checked(known, seen, inputs[at]) is Some);
                                    }
                                }
                            }
                            Err(InvalidationError::Unreadable(e))
                        },
                    }
                },
            },
        };
        (state, outcome)
    }

    /// One invalidation pass over the workspaces found now. Each enters with
    /// the state the project recorded for it, or as new, and is checked
    /// against the answer that the resolver gave for its name and against
    /// the probes; a workspace that fails keeps its state and does not stop
    /// the pass.
    pub fn invalidate(
        &self,
        current: Vec<Workspace>,
        answers: &NameMap<String>,
        probes: &Vec<FileProbe>,
    ) -> (report: PassReport)
        ensures
            report.workspaces@.len() == current@.len(),
            forall|i: int|
                0 <= i < current@.len() ==> left_as(
                    entering(*self, current@[i]),
                    *answers,
                    probe_models(probes@),
                    #[trigger] report.workspaces@[i],
                ),
            texts(report.updated@) == dirty_names(
                *self,
                current@,
                *answers,
                probe_models(probes@),
                current@.len() as int,
            ),
            failure_models(report.failed@) == failures(
                *self,
                current@,
                *answers,
                probe_models(probes@),
                current@.len() as int,
            ),
    {
        let ghost seen = probe_models(probes@);
        let mut report = PassReport::new();
        assert(texts(report.updated@) =~= dirty_names(*self, current@, *answers, seen, 0));
        assert(failure_models(report.failed@) =~= failures(*self, current@, *answers, seen, 0));
        for workspace in it: current.into_iter()
            invariant
                it.seq() == current@,
                seen == probe_models(probes@),
                report.workspaces@.len() == it.index(),
                forall|i: int|
                    0 <= i < it.index() ==> left_as(
                        entering(*self, current@[i]),
                        *answers,
                        seen,
                        #[trigger] report.workspaces@[i],
                    ),
                texts(report.updated@) == dirty_names(
                    *self,
                    current@,
                    *answers,
                    seen,
                    it.index() as int,
                ),
                failure_models(report.failed@) == failures(
                    *self,
                    current@,
                    *answers,
                    seen,
                    it.index() as int,
                ),
        {
            let ghost at = it.index() as int;
            let ghost before = report;
            let ghost model = entering(*self, workspace);
            let (state, outcome) = self.settle(workspace, answers, probes);
            assert(file_models(state.files) =~= file_models(model.files));
            report.record(state, outcome);
            proof {
                let last = report.workspaces@[at];
                assert(left_as(model, *answers, seen, last));
                assert forall|i: int| 0 <= i < at + 1 implies left_as(
                    entering(*self, current@[i]),
                    *answers,
                    seen,
                    #[trigger] report.workspaces@[i],
                ) by {
                    if i < at {
                        assert(report.workspaces@[i] == before.workspaces@[i]);
                    }
                }
                assert(texts(report.updated@) =~= dirty_names(
                    *self,
                    current@,
                    *answers,
                    seen,
                    at + 1,
                ));
                assert(failure_models(report.failed@) =~= failures(
                    *self,
                    current@,
                    *answers,
                    seen,
                    at + 1,
                ));
            }
        }
        report
    }
}

} // verus!
