//! The descriptor of a package: its name, its version, the dependencies it
//! declares and, for the root package, where its workspaces lie.

use crate::name_map::NameMap;
use crate::text::Text;
use vstd::prelude::*;

verus! {

/// What the descriptor file holds, field by field. `dependencies` pairs the
/// name of each dependency with the version range asked of it.
#[derive(Debug)]
pub struct PackageJsonData {
    pub name: String,
    pub version: String,
    pub workspaces: Vec<String>,
    pub dependencies: Vec<(String, String)>,
}

/// A package descriptor, with the path of the file it was read from.
#[derive(Debug)]
pub struct PackageJson {
    pub path: String,
    pub name: String,
    pub version: String,
    pub workspaces_config: Vec<String>,
    pub dependencies: NameMap<String>,
}

/// The workspace globs of a descriptor that names none.
pub fn default_workspaces() -> (globs: Vec<String>)
    ensures
        globs@.len() == 0,
{
    Vec::new()
}

/// The dependencies of a descriptor that names none.
pub fn default_deps() -> (deps: Vec<(String, String)>)
    ensures
        deps@.len() == 0,
{
    Vec::new()
}

/// The version of a descriptor that names none.
pub fn default_version() -> (version: String)
    ensures
        version@ == "0.0.0"@,
{
    "0.0.0".to_string()
}

/// The ranges declared in the first `upto` pairs, by name. Where a name is
/// declared twice the later range stands.
pub open spec fn declared_ranges(pairs: Seq<(String, String)>, upto: int) -> Map<Text, Text>
    decreases upto,
{
    if upto <= 0 {
        Map::empty()
    } else {
        declared_ranges(pairs, upto - 1).insert(pairs[upto - 1].0@, pairs[upto - 1].1@)
    }
}

/// The names declared in the first `upto` pairs, each at the place of its
/// first declaration.
pub open spec fn declared_names(pairs: Seq<(String, String)>, upto: int) -> Seq<Text>
    decreases upto,
{
    if upto <= 0 {
        Seq::empty()
    } else if declared_names(pairs, upto - 1).contains(pairs[upto - 1].0@) {
        declared_names(pairs, upto - 1)
    } else {
        declared_names(pairs, upto - 1).push(pairs[upto - 1].0@)
    }
}

impl PackageJson {
    /// No dependency is declared twice.
    pub open spec fn wf(&self) -> bool {
        self.dependencies.wf()
    }

    /// The range asked of each dependency, by name.
    pub open spec fn ranges(&self) -> Map<Text, Text> {
        Map::new(
            |name: Text| self.dependencies.has(name),
            |name: Text| self.dependencies.value(name)@,
        )
    }

    /// The descriptor read from the file at `path`.
    pub fn new(path: &String, data: PackageJsonData) -> (descriptor: PackageJson)
        ensures
            descriptor.wf(),
            descriptor.path@ == path@,
            descriptor.name@ == data.name@,
            descriptor.version@ == data.version@,
            descriptor.workspaces_config@ == data.workspaces@,
            descriptor.dependencies.keys() == declared_names(
                data.dependencies@,
                data.dependencies@.len() as int,
            ),
            descriptor.ranges() == declared_ranges(
                data.dependencies@,
                data.dependencies@.len() as int,
            ),
    {
        let mut dependencies: NameMap<String> = NameMap::new();
        let ghost pairs = data.dependencies@;
        let mut i: usize = 0;
        assert(dependencies.keys() =~= declared_names(pairs, 0));
        while i < data.dependencies.len()
            invariant
                i <= data.dependencies.len(),
                pairs == data.dependencies@,
                dependencies.wf(),
                dependencies.keys() == declared_names(pairs, i as int),
                forall|name: Text|
                    dependencies.has(name) <==> declared_ranges(pairs, i as int).contains_key(
                        name,
                    ),
                forall|name: Text|
                    dependencies.has(name) ==> (#[trigger] dependencies.value(name))@
                        == declared_ranges(pairs, i as int)[name],
            decreases data.dependencies.len() - i,
        {
            let ghost before = dependencies;
            let name = data.dependencies[i].0.clone();
            let range = data.dependencies[i].1.clone();
            dependencies.insert(name, range);
            proof {
                assert(dependencies.as_map() == before.as_map().insert(name@, range));
                assert forall|other: Text|
                    dependencies.has(other) <==> declared_ranges(
                        pairs,
                        i + 1,
                    ).contains_key(other) by {
                    assert(dependencies.as_map().contains_key(other) == dependencies.has(other));
                    assert(before.as_map().contains_key(other) == before.has(other));
                }
                assert forall|other: Text| dependencies.has(other) implies (
                #[trigger] dependencies.value(other))@ == declared_ranges(pairs, i + 1)[other] by {
                    assert(dependencies.as_map().contains_key(other));
                    assert(dependencies.as_map()[other] == dependencies.value(other));
                    if other != name@ {
                        assert(before.as_map().contains_key(other) == before.has(other));
                        assert(before.as_map()[other] == before.value(other));
                    }
                }
            }
            i += 1;
        }
        let descriptor = PackageJson {
            path: path.clone(),
            name: data.name,
            version: data.version,
            workspaces_config: data.workspaces,
            dependencies,
        };
        assert(descriptor.ranges() =~= declared_ranges(pairs, pairs.len() as int));
        descriptor
    }

    /// The globs under which the workspaces of this package lie.
    pub fn get_workspaces_config(&self) -> (globs: &Vec<String>)
        ensures
            globs == &self.workspaces_config,
    {
        &self.workspaces_config
    }
}

impl PackageJson {
    /// Whether two descriptors hold the same.
    pub open spec fn same(&self, other: &PackageJson) -> bool {
        &&& self.path == other.path
        &&& self.name == other.name
        &&& self.version == other.version
        &&& self.workspaces_config@ == other.workspaces_config@
        &&& self.dependencies.entries@ == other.dependencies.entries@
    }
}

impl Clone for PackageJson {
    fn clone(&self) -> (copy: Self)
        ensures
            copy.same(self),
    {
        PackageJson {
            path: self.path.clone(),
            name: self.name.clone(),
            version: self.version.clone(),
            workspaces_config: self.workspaces_config.clone(),
            dependencies: self.dependencies.clone(),
        }
    }
}

} // verus!
