//! Where projects live, the manager that holds the projects opened by
//! location, and what can go wrong when opening or creating them.

use vstd::prelude::*;
use crate::ids::{is_random_uuid, UserId};
use crate::project::Project;
use crate::text::chars_of;

verus! {

/// Errors when opening or creating a project.
#[derive(Debug, Clone, PartialEq, Eq)]
pub enum ManagerError {
    /// The user lacks the permission for the operation.
    PermissionDenied,
    /// The project could not be found.
    NotFound,
}

/// Location of a project managed by the application, locally or on a host.
#[derive(Debug, Clone, PartialEq, Eq, Hash)]
pub struct ManagedProjectLocation {
    /// The host where the project is located.
    pub host: String,
    /// The unique identifier of the project.
    pub uuid: u128,
}

/// Where a project is located.
#[derive(Debug, Clone, PartialEq, Eq, Hash)]
pub enum ProjectLocation {
    /// In a location managed by the application.
    Managed(ManagedProjectLocation),
    /// In a location the user chose on their machine (the path as text).
    Local(String),
}

/// Where a new project is created.
#[derive(Debug, Clone, PartialEq, Eq)]
pub enum ProjectCreationLocation {
    /// Managed by the application, on the named host.
    Managed(String),
    /// On the user's machine (the path as text).
    Local(String),
}

/// A location as the specification compares it: whether it is managed,
/// its host or path, and (for a managed one) the project's uuid.
pub open spec fn location_key(l: ProjectLocation) -> (bool, Seq<char>, u128) {
    match l {
        ProjectLocation::Managed(m) => (true, m.host@, m.uuid),
        ProjectLocation::Local(p) => (false, p@, 0),
    }
}

/// Position of the first entry of `projects` at a location with the key of
/// `l`, or `-1`.
pub open spec fn location_pos(projects: Seq<(ProjectLocation, Project)>, l: ProjectLocation) -> int
    decreases projects.len(),
{
    if projects.len() == 0 {
        -1
    } else {
        let r = location_pos(projects.drop_last(), l);
        if r >= 0 {
            r
        } else if location_key(projects.last().0) == location_key(l) {
            projects.len() - 1
        } else {
            -1
        }
    }
}

proof fn lemma_location_pos(projects: Seq<(ProjectLocation, Project)>, l: ProjectLocation)
    ensures
        -1 <= location_pos(projects, l) < projects.len(),
        location_pos(projects, l) >= 0 ==> location_key(projects[location_pos(projects, l)].0) == location_key(l),
        forall|j: int|
            0 <= j < projects.len() && (location_pos(projects, l) < 0 || j < location_pos(projects, l))
                ==> location_key((#[trigger] projects[j]).0) != location_key(l),
    decreases projects.len(),
{
    if projects.len() > 0 {
        lemma_location_pos(projects.drop_last(), l);
        assert forall|j: int|
            0 <= j < projects.len() && (location_pos(projects, l) < 0 || j < location_pos(projects, l)) implies location_key(
            (#[trigger] projects[j]).0,
        ) != location_key(l) by {
            if j < projects.len() - 1 {
                assert(projects.drop_last()[j] == projects[j]);
            }
        }
    }
}

/// The location where a project created at `c` with uuid `uuid` lives.
pub open spec fn created_location(c: ProjectCreationLocation, uuid: u128) -> ProjectLocation {
    match c {
        ProjectCreationLocation::Managed(host) => ProjectLocation::Managed(ManagedProjectLocation { host, uuid }),
        ProjectCreationLocation::Local(path) => ProjectLocation::Local(path),
    }
}

/// `p` is a new, empty project of `user`.
pub open spec fn fresh_project(p: Project, user: UserId) -> bool {
    &&& is_random_uuid(p.uuid)
    &&& p.user == user
    &&& p.session is None
    &&& p.branch.0 == 0
    &&& p.lamport_clock == 0
    &&& p.log@.len() == 0
    &&& p.session_data@.len() == 0
    &&& p.shared_data@.len() == 0
}

/// Whether `a` and `b` are the same text.
fn same_text(a: &String, b: &String) -> (r: bool)
    ensures
        r == (a@ == b@),
{
    let x = chars_of(a.as_str());
    let y = chars_of(b.as_str());
    if x.len() != y.len() {
        return false;
    }
    let mut i: usize = 0;
    while i < x.len()
        invariant
            x@ == a@,
            y@ == b@,
            x.len() == y.len(),
            i <= x.len(),
            forall|k: int| 0 <= k < i ==> x@[k] == y@[k],
        decreases x.len() - i,
    {
        if x[i] != y[i] {
            assert(x@[i as int] != y@[i as int]);
            return false;
        }
        i += 1;
    }
    assert(x@ =~= y@);
    true
}

/// Whether `a` and `b` are the same location.
fn same_location(a: &ProjectLocation, b: &ProjectLocation) -> (r: bool)
    ensures
        r == (location_key(*a) == location_key(*b)),
{
    match (a, b) {
        (ProjectLocation::Managed(x), ProjectLocation::Managed(y)) => x.uuid == y.uuid && same_text(&x.host, &y.host),
        (ProjectLocation::Local(x), ProjectLocation::Local(y)) => same_text(x, y),
        _ => false,
    }
}

/// The projects opened by location, one instance for each.
#[derive(Debug)]
pub struct ProjectManager {
    pub projects: Vec<(ProjectLocation, Project)>,
}

impl ProjectManager {
    /// A manager holding no project.
    pub fn new() -> (r: ProjectManager)
        ensures
            r.projects@.len() == 0,
    {
        ProjectManager { projects: Vec::new() }
    }

    /// Position of the project at `location`.
    fn find(&self, location: &ProjectLocation) -> (r: Option<usize>)
        ensures
            match r {
                Some(i) => i < self.projects@.len() && location_pos(self.projects@, *location) == i as int,
                None => location_pos(self.projects@, *location) == -1,
            },
    {
        proof {
            lemma_location_pos(self.projects@, *location);
        }
        let mut k: usize = 0;
        while k < self.projects.len()
            invariant
                k <= self.projects.len(),
                forall|j: int| 0 <= j < k ==> location_key((#[trigger] self.projects@[j]).0) != location_key(*location),
            decreases self.projects.len() - k,
        {
            if same_location(&self.projects[k].0, location) {
                proof {
                    lemma_location_pos(self.projects@, *location);
                }
                return Some(k);
            }
            k += 1;
        }
        proof {
            lemma_location_pos(self.projects@, *location);
        }
        None
    }

    /// Opens the project at `location` for `user`: the one instance the
    /// manager holds for that location, or `NotFound` when it holds none.
    /// No permissions are kept, so `PermissionDenied` never comes.
    pub fn open(&self, location: ProjectLocation, user: UserId) -> (r: Result<&Project, ManagerError>)
        ensures
            match r {
                Ok(p) => location_pos(self.projects@, location) >= 0 && *p == self.projects@[location_pos(
                    self.projects@,
                    location,
                )].1,
                Err(e) => e == ManagerError::NotFound && location_pos(self.projects@, location) < 0,
            },
    {
        match self.find(&location) {
            Some(i) => Ok(&self.projects[i].1),
            None => Err(ManagerError::NotFound),
        }
    }

    /// Puts `project` at `location` and returns where it lives, so that
    /// [`ProjectManager::open`] opens it: a managed location names the
    /// project by its uuid. Putting a project where one already is, is not
    /// permitted (`PermissionDenied`), and changes nothing.
    pub fn create_with(&mut self, location: ProjectCreationLocation, project: Project) -> (r: Result<
        ProjectLocation,
        ManagerError,
    >)
        ensures
            (r is Err) == (location_pos(old(self).projects@, created_location(location, project.uuid)) >= 0),
            match r {
                Ok(l) => {
                    &&& l == created_location(location, project.uuid)
                    &&& final(self).projects@ == old(self).projects@.push((l, project))
                },
                Err(e) => {
                    &&& e == ManagerError::PermissionDenied
                    &&& final(self).projects@ == old(self).projects@
                },
            },
    {
        let ghost loc0 = location;
        let l = match location {
            ProjectCreationLocation::Managed(host) => ProjectLocation::Managed(
                ManagedProjectLocation { host, uuid: project.uuid },
            ),
            ProjectCreationLocation::Local(path) => ProjectLocation::Local(path),
        };
        assert(l == created_location(loc0, project.uuid));
        if self.find(&l).is_some() {
            return Err(ManagerError::PermissionDenied);
        }
        let r = copy_location(&l);
        self.projects.push((l, project));
        Ok(r)
    }

    /// Creates a new, empty project of `user` at `location` and returns
    /// where it lives (as [`ProjectManager::create_with`] does with it). The
    /// project's uuid is drawn at random, so whatever comes back, it is that
    /// of a new, empty project of `user`.
    pub fn create(&mut self, location: ProjectCreationLocation, user: UserId) -> (r: Result<
        ProjectLocation,
        ManagerError,
    >)
        ensures
            match r {
                Ok(l) => {
                    &&& final(self).projects@.len() == old(self).projects@.len() + 1
                    &&& final(self).projects@.drop_last() == old(self).projects@
                    &&& final(self).projects@.last().0 == l
                    &&& fresh_project(final(self).projects@.last().1, user)
                    &&& l == created_location(location, final(self).projects@.last().1.uuid)
                    &&& location_pos(old(self).projects@, l) < 0
                },
                Err(e) => {
                    &&& e == ManagerError::PermissionDenied
                    &&& final(self).projects@ == old(self).projects@
                    &&& exists|p: Project|
                        fresh_project(p, user) && location_pos(
                            old(self).projects@,
                            #[trigger] created_location(location, p.uuid),
                        ) >= 0
                },
            },
    {
        let ghost loc0 = location;
        let mut project = Project::new();
        project.user = user;
        let ghost p0 = project;
        let r = self.create_with(location, project);
        proof {
            if r is Ok {
                assert(self.projects@.drop_last() =~= old(self).projects@);
            } else {
                assert(fresh_project(p0, user));
            }
        }
        r
    }
}

/// A copy of `l`, the same value.
fn copy_location(l: &ProjectLocation) -> (r: ProjectLocation)
    ensures
        r == *l,
{
    match l {
        ProjectLocation::Managed(m) => ProjectLocation::Managed(
            ManagedProjectLocation { host: m.host.clone(), uuid: m.uuid },
        ),
        ProjectLocation::Local(p) => ProjectLocation::Local(p.clone()),
    }
}

/// Looking a location up finds the first project at that very location:
/// two managed locations are the same when their host texts and uuids are,
/// two local ones when their path texts are, and a managed location is
/// never a local one. So the entry found is at the same location as `l`, and
/// no earlier entry is.
pub proof fn lemma_location_pos_same_location(projects: Seq<(ProjectLocation, Project)>, l: ProjectLocation)
    ensures
        location_pos(projects, l) >= 0 ==> match (projects[location_pos(projects, l)].0, l) {
            (ProjectLocation::Managed(a), ProjectLocation::Managed(b)) => a.host@ == b.host@ && a.uuid == b.uuid,
            (ProjectLocation::Local(a), ProjectLocation::Local(b)) => a@ == b@,
            _ => false,
        },
        forall|j: int|
            0 <= j < projects.len() && match ((#[trigger] projects[j]).0, l) {
                (ProjectLocation::Managed(a), ProjectLocation::Managed(b)) => a.host@ == b.host@ && a.uuid == b.uuid,
                (ProjectLocation::Local(a), ProjectLocation::Local(b)) => a@ == b@,
                _ => false,
            } ==> 0 <= location_pos(projects, l) <= j,
{
    lemma_location_pos(projects, l);
}

/// A created project opens where it was created: a managed creation puts it
/// at its host and under its own uuid, a local one at its path; and once
/// [`ProjectManager::create_with`] has put a project at a free location,
/// [`ProjectManager::open`] of that location finds that project, while the
/// projects already held are still found where they were.
pub proof fn lemma_create_then_open(
    projects: Seq<(ProjectLocation, Project)>,
    c: ProjectCreationLocation,
    p: Project,
    other: ProjectLocation,
)
    requires
        location_pos(projects, created_location(c, p.uuid)) < 0,
    ensures
        match (c, created_location(c, p.uuid)) {
            (ProjectCreationLocation::Managed(h), ProjectLocation::Managed(m)) => m.host == h && m.uuid == p.uuid,
            (ProjectCreationLocation::Local(a), ProjectLocation::Local(b)) => a == b,
            _ => false,
        },
        location_pos(projects.push((created_location(c, p.uuid), p)), created_location(c, p.uuid)) == projects.len(),
        projects.push((created_location(c, p.uuid), p))[projects.len() as int].1 == p,
        location_pos(projects, other) >= 0 ==> location_pos(projects.push((created_location(c, p.uuid), p)), other)
            == location_pos(projects, other),
{
    let l = created_location(c, p.uuid);
    let q = projects.push((l, p));
    assert(q.drop_last() =~= projects);
}

} // verus!
