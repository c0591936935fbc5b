//! The catalogue of fixture templates, filed under paths of names.
//!
//! The catalogue is a tree of folders. Its nodes stand in one list and refer
//! to each other by index, a child always after its parent; the fixtures
//! stand in a second list, each distinct template once, and a folder holds
//! the indices of its own.

use crate::artnet::fixture::Fixture;
use crate::artnet::fixture::FixtureModel;
use crate::concurrent::indices;
use crate::concurrent::insert_index;
use crate::concurrent::insert_name;
use crate::concurrent::index_of_name;
use crate::concurrent::list_indices;
use crate::concurrent::list_names;
use crate::concurrent::named;
use crate::concurrent::new_index_set;
use crate::concurrent::new_name_map;
use crate::concurrent::no_indices;
use crate::concurrent::no_names;
use crate::sharing::share;
use crate::sorted::ascending;
use crate::sorted::lemma_insert_ascending;
use crate::sorted::lemma_insert_contains;
use crate::sorted::lemma_take_contains;
use crate::text::lemma_path_precedes_irreflexive;
use crate::text::lemma_path_precedes_total;
use crate::text::lemma_path_precedes_transitive;
use crate::text::lemma_precedes_asymmetric;
use crate::text::lemma_precedes_irreflexive;
use crate::text::lemma_precedes_total;
use crate::text::lemma_precedes_transitive;
use crate::text::path_goes_before;
use crate::text::path_precedes;
use crate::text::precedes;
use crate::text::same_text;
use crate::text::text_precedes;
use crate::text::texts;
use dashmap::DashMap;
use dashmap::DashSet;
use std::sync::Arc;
use vstd::prelude::*;

pub mod defaults;
pub mod vrsl;

verus! {

/// A path of folder names, from the top of the catalogue down.
pub type Path = Seq<Seq<char>>;

/// A fixture as the catalogue files it: the folder and the template.
pub type Entry = (Seq<Seq<char>>, FixtureModel);

/// Whether the folder lies on the way to one of the given entries.
pub open spec fn leads_to(folder: Path, entries: Set<Entry>) -> bool {
    exists|entry: Entry| #[trigger] entries.contains(entry) && folder.is_prefix_of(entry.0)
}

/// The list of the fixtures that were ever filed, after one more filing: a
/// fixture that is new to the list goes to its end.
pub open spec fn filing(filed: Seq<FixtureModel>, fixture: FixtureModel) -> Seq<FixtureModel> {
    if filed.contains(fixture) {
        filed
    } else {
        filed.push(fixture)
    }
}

/// The list of the fixtures that were ever filed, after a row of filings.
pub open spec fn filings(filed: Seq<FixtureModel>, fixtures: Seq<FixtureModel>) -> Seq<FixtureModel>
    decreases fixtures.len(),
{
    if fixtures.len() == 0 {
        filed
    } else {
        filing(filings(filed, fixtures.drop_last()), fixtures.last())
    }
}

/// Whether the fixture `a` is listed strictly before the fixture `b` of the
/// same folder: by model name, and where the names are the same, the one
/// that was filed first anywhere in the catalogue comes first.
pub open spec fn fixture_precedes(filed: Seq<FixtureModel>, a: FixtureModel, b: FixtureModel) -> bool {
    precedes(a.model, b.model) || (a.model == b.model && filed.index_of(a) < filed.index_of(b))
}

/// Whether the entry `a` is listed strictly before the entry `b`: by the
/// paths of their folders (see [`path_precedes`]), and within a folder as
/// [`fixture_precedes`] says.
pub open spec fn entry_precedes(filed: Seq<FixtureModel>, a: Entry, b: Entry) -> bool {
    path_precedes(a.0, b.0) || (a.0 == b.0 && fixture_precedes(filed, a.1, b.1))
}

/// What was filed is listed in its folder, and exactly once.
pub proof fn lemma_filed_is_listed_once(
    before: Set<Entry>,
    after: Set<Entry>,
    path: Path,
    fixture: FixtureModel,
    listed: Seq<FixtureModel>,
)
    requires
        after == before.insert((path, fixture)),
        listed.no_duplicates(),
        forall|other: FixtureModel| #[trigger] listed.contains(other) <==> after.contains((path, other)),
    ensures
        exists|i: int| 0 <= i < listed.len() && #[trigger] listed[i] == fixture,
        forall|i: int, j: int|
            0 <= i < listed.len() && 0 <= j < listed.len() && listed[i] == fixture && listed[j]
                == fixture ==> i == j,
{
    assert(after.contains((path, fixture)));
    assert(listed.contains(fixture));
}

/// Filing the same fixture in the same folder again changes nothing.
pub proof fn lemma_filing_twice(
    before: Set<Entry>,
    filed: Seq<FixtureModel>,
    path: Path,
    fixture: FixtureModel,
)
    ensures
        before.insert((path, fixture)).insert((path, fixture)) == before.insert((path, fixture)),
        filing(filing(filed, fixture), fixture) == filing(filed, fixture),
{
    assert(before.insert((path, fixture)).insert((path, fixture)) =~= before.insert((path, fixture)));
    if !filed.contains(fixture) {
        assert(filed.push(fixture)[filed.len() as int] == fixture);
    }
}

/// One folder as a value.
struct NodeModel {
    path: Path,
    parent: int,
    fixtures: Set<usize>,
    children: Map<Seq<char>, usize>,
}

/// A child that a folder names comes later in the list and has the
/// folder's path with its own name added.
spec fn child_link_ok(nodes: Seq<NodeModel>, n: int, name: Seq<char>) -> bool {
    nodes[n].children.dom().contains(name) ==> {
        let child = nodes[n].children[name] as int;
        n < child < nodes.len() && nodes[child].path == nodes[n].path.push(name)
    }
}

/// Every folder but the top one is named by its parent, which comes earlier
/// in the list.
spec fn parent_link_ok(nodes: Seq<NodeModel>, n: int) -> bool {
    n > 0 ==> {
        let parent = nodes[n].parent;
        &&& 0 <= parent < n
        &&& nodes[n].path.len() > 0
        &&& nodes[n].path == nodes[parent].path.push(nodes[n].path.last())
        &&& nodes[parent].children.dom().contains(nodes[n].path.last())
        &&& nodes[parent].children[nodes[n].path.last()] == n
    }
}

/// What a folder holds is in the list of fixtures.
spec fn fixture_ok(nodes: Seq<NodeModel>, n: int, id: usize, shelf: int) -> bool {
    nodes[n].fixtures.contains(id) ==> id < shelf
}

/// Two folders do not have the same path.
spec fn apart(nodes: Seq<NodeModel>, a: int, b: int) -> bool {
    nodes[a].path != nodes[b].path
}

spec fn tree_wf(nodes: Seq<NodeModel>, shelf: int) -> bool {
    &&& nodes.len() >= 1
    &&& nodes[0].path.len() == 0
    &&& forall|n: int, name: Seq<char>|
        0 <= n < nodes.len() ==> #[trigger] child_link_ok(nodes, n, name)
    &&& forall|n: int| 0 <= n < nodes.len() ==> #[trigger] parent_link_ok(nodes, n)
    &&& forall|n: int, id: usize| 0 <= n < nodes.len() ==> #[trigger] fixture_ok(nodes, n, id, shelf)
    &&& forall|a: int, b: int| 0 <= a < b < nodes.len() ==> #[trigger] apart(nodes, a, b)
}

spec fn folder_at(nodes: Seq<NodeModel>, n: int, path: Path) -> bool {
    0 <= n < nodes.len() && nodes[n].path == path
}

spec fn tree_folders(nodes: Seq<NodeModel>) -> Set<Path> {
    Set::new(|path: Path| exists|n: int| #[trigger] folder_at(nodes, n, path))
}

spec fn entry_at(nodes: Seq<NodeModel>, shelf: Seq<FixtureModel>, n: int, id: usize, entry: Entry) -> bool {
    &&& 0 <= n < nodes.len()
    &&& nodes[n].fixtures.contains(id)
    &&& id < shelf.len()
    &&& entry == (nodes[n].path, shelf[id as int])
}

spec fn tree_entries(nodes: Seq<NodeModel>, shelf: Seq<FixtureModel>) -> Set<Entry> {
    Set::new(|entry: Entry| exists|n: int, id: usize| #[trigger] entry_at(nodes, shelf, n, id, entry))
}

/// Every beginning of a folder's path is the path of a folder, and that
/// folder names the next one on the way down.
proof fn lemma_ancestor(nodes: Seq<NodeModel>, shelf: int, x: int, depth: int) -> (a: int)
    requires
        tree_wf(nodes, shelf),
        0 <= x < nodes.len(),
        0 <= depth <= nodes[x].path.len(),
    ensures
        0 <= a < nodes.len(),
        nodes[a].path == nodes[x].path.take(depth),
        depth < nodes[x].path.len() ==> nodes[a].children.dom().contains(nodes[x].path[depth]),
    decreases x,
{
    let path = nodes[x].path;
    if depth == path.len() {
        assert(path.take(depth) =~= path);
        x
    } else {
        assert(parent_link_ok(nodes, x));
        let parent = nodes[x].parent;
        assert(nodes[parent].path =~= path.drop_last());
        if depth == path.len() - 1 {
            assert(path.take(depth) =~= path.drop_last());
            parent
        } else {
            let a = lemma_ancestor(nodes, shelf, parent, depth);
            assert(path.drop_last().take(depth) =~= path.take(depth));
            a
        }
    }
}

/// The folder with a given path, if there is one, is the only one.
proof fn lemma_one_folder_per_path(nodes: Seq<NodeModel>, shelf: int, a: int, b: int)
    requires
        tree_wf(nodes, shelf),
        0 <= a < nodes.len(),
        0 <= b < nodes.len(),
        nodes[a].path == nodes[b].path,
    ensures
        a == b,
{
    if a < b {
        assert(apart(nodes, a, b));
    } else if b < a {
        assert(apart(nodes, b, a));
    }
}

/// The tree after folder `n` got a new child called `name`.
spec fn with_child(nodes: Seq<NodeModel>, n: int, name: Seq<char>) -> Seq<NodeModel> {
    nodes.update(
        n,
        NodeModel { children: nodes[n].children.insert(name, nodes.len() as usize), ..nodes[n] },
    ).push(
        NodeModel {
            path: nodes[n].path.push(name),
            parent: n,
            fixtures: Set::empty(),
            children: Map::empty(),
        },
    )
}

/// A new, empty folder below an existing one leaves the tree sound; it adds
/// its path to the folders and nothing to the entries.
proof fn lemma_with_child(nodes: Seq<NodeModel>, shelf: Seq<FixtureModel>, n: int, name: Seq<char>)
    requires
        tree_wf(nodes, shelf.len() as int),
        0 <= n < nodes.len(),
        nodes.len() <= usize::MAX,
        !nodes[n].children.dom().contains(name),
    ensures
        tree_wf(with_child(nodes, n, name), shelf.len() as int),
        tree_folders(with_child(nodes, n, name)) == tree_folders(nodes).insert(nodes[n].path.push(name)),
        tree_entries(with_child(nodes, n, name), shelf) == tree_entries(nodes, shelf),
{
    let grown = with_child(nodes, n, name);
    let new = nodes.len() as int;
    let new_path = nodes[n].path.push(name);
    assert forall|m: int| 0 <= m < nodes.len() implies #[trigger] grown[m].path == nodes[m].path
        && grown[m].parent == nodes[m].parent && grown[m].fixtures == nodes[m].fixtures by {}
    assert forall|m: int| 0 <= m < nodes.len() implies nodes[m].path != new_path by {
        if nodes[m].path == new_path {
            assert(parent_link_ok(nodes, m));
            let parent = nodes[m].parent;
            assert(nodes[parent].path =~= new_path.drop_last());
            assert(nodes[n].path =~= new_path.drop_last());
            lemma_one_folder_per_path(nodes, shelf.len() as int, parent, n);
            assert(new_path.last() == name);
        }
    }
    assert forall|m: int, s: Seq<char>| 0 <= m < grown.len() implies #[trigger] child_link_ok(
        grown,
        m,
        s,
    ) by {
        if m < nodes.len() {
            assert(child_link_ok(nodes, m, s));
        }
    }
    assert forall|m: int| 0 <= m < grown.len() implies #[trigger] parent_link_ok(grown, m) by {
        if m < nodes.len() {
            assert(parent_link_ok(nodes, m));
        } else {
            assert(new_path.last() == name);
        }
    }
    assert forall|m: int, id: usize| 0 <= m < grown.len() implies #[trigger] fixture_ok(
        grown,
        m,
        id,
        shelf.len() as int,
    ) by {
        if m < nodes.len() {
            assert(fixture_ok(nodes, m, id, shelf.len() as int));
        }
    }
    assert forall|a: int, b: int| 0 <= a < b < grown.len() implies #[trigger] apart(grown, a, b) by {
        if b < nodes.len() {
            assert(apart(nodes, a, b));
        }
    }
    assert forall|path: Path| tree_folders(grown).contains(path) <==> tree_folders(nodes).insert(
        new_path,
    ).contains(path) by {
        if tree_folders(grown).contains(path) {
            let m = choose|m: int| folder_at(grown, m, path);
            if m < nodes.len() {
                assert(folder_at(nodes, m, path));
            }
        }
        if tree_folders(nodes).contains(path) {
            let m = choose|m: int| folder_at(nodes, m, path);
            assert(folder_at(grown, m, path));
        }
        if path == new_path {
            assert(folder_at(grown, new, path));
        }
    }
    assert(tree_folders(grown) =~= tree_folders(nodes).insert(new_path));
    assert forall|entry: Entry| tree_entries(grown, shelf).contains(entry) <==> tree_entries(
        nodes,
        shelf,
    ).contains(entry) by {
        if tree_entries(grown, shelf).contains(entry) {
            let (m, id) = choose|m: int, id: usize| entry_at(grown, shelf, m, id, entry);
            assert(entry_at(nodes, shelf, m, id, entry));
        }
        if tree_entries(nodes, shelf).contains(entry) {
            let (m, id) = choose|m: int, id: usize| entry_at(nodes, shelf, m, id, entry);
            assert(entry_at(grown, shelf, m, id, entry));
        }
    }
    assert(tree_entries(grown, shelf) =~= tree_entries(nodes, shelf));
}

/// The tree after folder `n` got the fixture `id`.
spec fn with_fixture(nodes: Seq<NodeModel>, n: int, id: usize) -> Seq<NodeModel> {
    nodes.update(n, NodeModel { fixtures: nodes[n].fixtures.insert(id), ..nodes[n] })
}

/// A fixture of the list put into a folder leaves the tree sound and the
/// folders as they are; it adds one entry.
proof fn lemma_with_fixture(nodes: Seq<NodeModel>, shelf: Seq<FixtureModel>, n: int, id: usize)
    requires
        tree_wf(nodes, shelf.len() as int),
        0 <= n < nodes.len(),
        id < shelf.len(),
    ensures
        tree_wf(with_fixture(nodes, n, id), shelf.len() as int),
        tree_folders(with_fixture(nodes, n, id)) == tree_folders(nodes),
        tree_entries(with_fixture(nodes, n, id), shelf) == tree_entries(nodes, shelf).insert(
            (nodes[n].path, shelf[id as int]),
        ),
{
    let filled = with_fixture(nodes, n, id);
    let added = (nodes[n].path, shelf[id as int]);
    assert forall|m: int, s: Seq<char>| 0 <= m < filled.len() implies #[trigger] child_link_ok(
        filled,
        m,
        s,
    ) by {
        assert(child_link_ok(nodes, m, s));
    }
    assert forall|m: int| 0 <= m < filled.len() implies #[trigger] parent_link_ok(filled, m) by {
        assert(parent_link_ok(nodes, m));
    }
    assert forall|m: int, other: usize| 0 <= m < filled.len() implies #[trigger] fixture_ok(
        filled,
        m,
        other,
        shelf.len() as int,
    ) by {
        assert(fixture_ok(nodes, m, other, shelf.len() as int));
    }
    assert forall|a: int, b: int| 0 <= a < b < filled.len() implies #[trigger] apart(filled, a, b) by {
        assert(apart(nodes, a, b));
    }
    assert forall|path: Path| tree_folders(filled).contains(path) <==> tree_folders(nodes).contains(
        path,
    ) by {
        if tree_folders(filled).contains(path) {
            let m = choose|m: int| folder_at(filled, m, path);
            assert(folder_at(nodes, m, path));
        }
        if tree_folders(nodes).contains(path) {
            let m = choose|m: int| folder_at(nodes, m, path);
            assert(folder_at(filled, m, path));
        }
    }
    assert(tree_folders(filled) =~= tree_folders(nodes));
    assert forall|entry: Entry| tree_entries(filled, shelf).contains(entry) <==> tree_entries(
        nodes,
        shelf,
    ).insert(added).contains(entry) by {
        if tree_entries(filled, shelf).contains(entry) {
            let (m, other) = choose|m: int, other: usize| entry_at(filled, shelf, m, other, entry);
            if !(m == n && other == id) {
                assert(entry_at(nodes, shelf, m, other, entry));
            }
        }
        if tree_entries(nodes, shelf).contains(entry) {
            let (m, other) = choose|m: int, other: usize| entry_at(nodes, shelf, m, other, entry);
            assert(entry_at(filled, shelf, m, other, entry));
        }
        if entry == added {
            assert(entry_at(filled, shelf, n, id, entry));
        }
    }
    assert(tree_entries(filled, shelf) =~= tree_entries(nodes, shelf).insert(added));
}

/// One more fixture in the list changes neither folders nor entries.
proof fn lemma_longer_shelf(nodes: Seq<NodeModel>, shelf: Seq<FixtureModel>, fixture: FixtureModel)
    requires
        tree_wf(nodes, shelf.len() as int),
    ensures
        tree_wf(nodes, shelf.len() as int + 1),
        tree_entries(nodes, shelf.push(fixture)) == tree_entries(nodes, shelf),
{
    let longer = shelf.push(fixture);
    assert forall|m: int, id: usize| 0 <= m < nodes.len() implies #[trigger] fixture_ok(
        nodes,
        m,
        id,
        shelf.len() as int + 1,
    ) by {
        assert(fixture_ok(nodes, m, id, shelf.len() as int));
    }
    assert forall|entry: Entry| tree_entries(nodes, longer).contains(entry) <==> tree_entries(
        nodes,
        shelf,
    ).contains(entry) by {
        if tree_entries(nodes, longer).contains(entry) {
            let (m, id) = choose|m: int, id: usize| entry_at(nodes, longer, m, id, entry);
            assert(fixture_ok(nodes, m, id, shelf.len() as int));
            assert(entry_at(nodes, shelf, m, id, entry));
        }
        if tree_entries(nodes, shelf).contains(entry) {
            let (m, id) = choose|m: int, id: usize| entry_at(nodes, shelf, m, id, entry);
            assert(entry_at(nodes, longer, m, id, entry));
        }
    }
    assert(tree_entries(nodes, longer) =~= tree_entries(nodes, shelf));
}

/// The folder with the given path is the one at place `q` of the order,
/// among the first `done`.
spec fn came_by(nodes: Seq<NodeModel>, order: Seq<usize>, done: int, q: int, path: Path) -> bool {
    0 <= q < done && q < order.len() && nodes[order[q] as int].path == path
}

/// The folder with the given path is among the first `done` of the order.
spec fn visited(nodes: Seq<NodeModel>, order: Seq<usize>, done: int, path: Path) -> bool {
    exists|q: int| #[trigger] came_by(nodes, order, done, q, path)
}

/// One folder of the catalogue.
struct Node {
    /// The names that lead here from the top.
    path: Vec<Arc<str>>,
    /// The index of the folder above; the top folder is its own.
    parent: usize,
    /// The fixtures filed here, by their index in the list of fixtures.
    fixtures: DashSet<usize>,
    /// The folders below, by name.
    children: DashMap<Arc<str>, usize>,
}

impl Node {
    spec fn model(self) -> NodeModel {
        NodeModel {
            path: texts(self.path@),
            parent: self.parent as int,
            fixtures: indices(self.fixtures),
            children: named(self.children),
        }
    }
}

/// The catalogue: fixture templates filed in folders.
///
/// What it holds is a set of entries, a folder path with a fixture each
/// (see [`FixtureStore::entries`]), and the set of folders that exist (see
/// [`FixtureStore::folders`]). Nothing is ever taken out.
pub struct FixtureStore {
    /// Every distinct fixture once.
    catalog: Vec<Arc<Fixture>>,
    /// The folders; the first is the top one.
    nodes: Vec<Node>,
}

impl FixtureStore {
    spec fn tree(&self) -> Seq<NodeModel> {
        self.nodes@.map_values(|node: Node| node.model())
    }

    spec fn shelf(&self) -> Seq<FixtureModel> {
        self.catalog@.map_values(|fixture: Arc<Fixture>| fixture@)
    }

    spec fn shelved_once(&self, i: int, j: int) -> bool {
        self.shelf()[i] != self.shelf()[j]
    }

    /// The folders form a tree, and no fixture is in the list twice.
    spec fn sound(&self) -> bool {
        &&& tree_wf(self.tree(), self.catalog@.len() as int)
        &&& forall|i: int, j: int| 0 <= i < j < self.catalog@.len() ==> #[trigger] self.shelved_once(i, j)
    }

    /// Something is filed in the folder at index `n` or below it.
    spec fn reaches(&self, n: int) -> bool {
        leads_to(self.tree()[n].path, self.entries())
    }

    /// Whether the catalogue is sound: its folders form a tree, and every
    /// folder but the top one has something filed in it or below it. Every
    /// catalogue that this library hands out is sound, and stays so.
    pub closed spec fn wf(&self) -> bool {
        &&& self.sound()
        &&& forall|n: int| 0 < n < self.nodes@.len() ==> #[trigger] self.reaches(n)
    }

    /// A folder other than the top one exists only because something is
    /// filed in it or below it, so it has something to show.
    pub proof fn lemma_every_folder_shows(&self, folder: Path)
        requires
            self.wf(),
            self.folders().contains(folder),
            folder.len() > 0,
        ensures
            leads_to(folder, self.entries()),
            self.shows(folder),
    {
        let tree = self.tree();
        let n = choose|n: int| folder_at(tree, n, folder);
        assert(self.reaches(n));
        let entry = choose|entry: Entry| #[trigger]
            self.entries().contains(entry) && folder.is_prefix_of(entry.0);
        if entry.0.len() == folder.len() {
            assert(entry.0 =~= folder);
            assert(self.entries().contains((folder, entry.1)));
        } else {
            let name = entry.0[folder.len() as int];
            self.lemma_entries_are_in_folders(entry);
            self.lemma_folders_are_nested(entry.0, folder.len() as int + 1);
            assert(entry.0.take(folder.len() as int + 1) =~= folder.push(name));
            assert(self.folders().contains(folder.push(name)));
        }
    }

    /// What is filed: each entry is the path of a folder and a fixture in it.
    pub closed spec fn entries(&self) -> Set<Entry> {
        tree_entries(self.tree(), self.shelf())
    }

    /// The paths of the folders that exist. The top folder, whose path is
    /// empty, always does.
    pub closed spec fn folders(&self) -> Set<Path> {
        tree_folders(self.tree())
    }

    /// The fixtures that were ever filed, each once, in the order in which
    /// they were first filed.
    pub closed spec fn filed(&self) -> Seq<FixtureModel> {
        self.shelf()
    }

    /// No fixture is in the list of filed fixtures twice, and the fixture of
    /// every entry is in it.
    pub proof fn lemma_filed(&self)
        requires
            self.wf(),
        ensures
            self.filed().no_duplicates(),
            forall|entry: Entry| #[trigger] self.entries().contains(entry) ==> self.filed().contains(entry.1),
    {
        let shelf = self.shelf();
        assert forall|i: int, j: int| 0 <= i < shelf.len() && 0 <= j < shelf.len() && i != j implies shelf[i]
            != shelf[j] by {
            if i < j {
                assert(self.shelved_once(i, j));
            } else {
                assert(self.shelved_once(j, i));
            }
        }
        assert forall|entry: Entry| #[trigger] self.entries().contains(entry) implies shelf.contains(
            entry.1,
        ) by {
            let (n, id) = choose|n: int, id: usize| entry_at(self.tree(), shelf, n, id, entry);
            assert(shelf[id as int] == entry.1);
        }
    }

    /// A fixture of the list is found at its own place.
    proof fn lemma_place(&self, id: int)
        requires
            self.sound(),
            0 <= id < self.catalog@.len(),
        ensures
            self.shelf().index_of(self.shelf()[id]) == id,
    {
        let shelf = self.shelf();
        let found = shelf.index_of(shelf[id]);
        assert(0 <= found < shelf.len() && shelf[found] == shelf[id]);
        if found < id {
            assert(self.shelved_once(found, id));
        } else if id < found {
            assert(self.shelved_once(id, found));
        }
    }

    /// Every folder lies within its parent: each beginning of a folder's
    /// path is a folder too, and an entry is filed in a folder that exists.
    pub proof fn lemma_folders_are_nested(&self, path: Path, depth: int)
        requires
            self.wf(),
            self.folders().contains(path),
            0 <= depth <= path.len(),
        ensures
            self.folders().contains(path.take(depth)),
            self.folders().contains(Seq::empty()),
    {
        let nodes = self.tree();
        let n = choose|n: int| folder_at(nodes, n, path);
        let a = lemma_ancestor(nodes, self.catalog@.len() as int, n, depth);
        assert(folder_at(nodes, a, path.take(depth)));
        assert(folder_at(nodes, 0, Seq::empty())) by {
            assert(nodes[0].path =~= Seq::empty());
        }
    }

    /// An entry is filed in a folder that exists.
    pub proof fn lemma_entries_are_in_folders(&self, entry: Entry)
        requires
            self.wf(),
            self.entries().contains(entry),
        ensures
            self.folders().contains(entry.0),
    {
        let nodes = self.tree();
        let (n, id) = choose|n: int, id: usize| entry_at(nodes, self.shelf(), n, id, entry);
        assert(folder_at(nodes, n, entry.0));
    }

    /// A catalogue with nothing filed in it, and no folder but the top one.
    pub fn new() -> (r: Self)
        ensures
            r.wf(),
            r.entries() == Set::<Entry>::empty(),
            r.folders() == set![Seq::<Seq<char>>::empty()],
            r.filed() == Seq::<FixtureModel>::empty(),
    {
        let top = Node {
            path: Vec::new(),
            parent: 0,
            fixtures: new_index_set(),
            children: new_name_map(),
        };
        let mut nodes: Vec<Node> = Vec::new();
        nodes.push(top);
        let r = Self { catalog: Vec::new(), nodes };
        proof {
            let tree = r.tree();
            assert(tree.len() == 1);
            assert(tree[0].path =~= Seq::empty());
            assert(tree[0].fixtures =~= Set::empty());
            assert(tree[0].children.dom() =~= Set::empty());
            assert forall|n: int, name: Seq<char>| 0 <= n < tree.len() implies #[trigger] child_link_ok(
                tree,
                n,
                name,
            ) by {}
            assert(tree_wf(tree, 0));
            assert forall|entry: Entry| !r.entries().contains(entry) by {
                if r.entries().contains(entry) {
                    let (n, id) = choose|n: int, id: usize| entry_at(tree, r.shelf(), n, id, entry);
                }
            }
            assert(r.entries() =~= Set::<Entry>::empty());
            assert forall|path: Path| r.folders().contains(path) <==> path == Seq::<Seq<char>>::empty() by {
                if r.folders().contains(path) {
                    let n = choose|n: int| folder_at(tree, n, path);
                }
                if path == Seq::<Seq<char>>::empty() {
                    assert(folder_at(tree, 0, path));
                }
            }
            assert(r.folders() =~= set![Seq::<Seq<char>>::empty()]);
            assert(r.filed() =~= Seq::<FixtureModel>::empty());
        }
        r
    }
}

/// A path with one more name at its end.
fn extended(path: &Vec<Arc<str>>, name: &Arc<str>) -> (r: Vec<Arc<str>>)
    ensures
        r@ == path@.push(*name),
{
    let mut r = copy_path(path);
    r.push(share(name));
    r
}

/// The same path again.
fn copy_path(path: &Vec<Arc<str>>) -> (r: Vec<Arc<str>>)
    ensures
        r@ == path@,
{
    let mut r: Vec<Arc<str>> = Vec::new();
    let mut i: usize = 0;
    while i < path.len()
        invariant
            i <= path@.len(),
            r@ == path@.take(i as int),
        decreases path@.len() - i,
    {
        r.push(share(&path[i]));
        proof {
            assert(path@.take(i + 1) =~= path@.take(i as int).push(path@[i as int]));
        }
        i += 1;
    }
    proof {
        assert(path@.take(i as int) =~= path@);
    }
    r
}

impl FixtureStore {
    /// The folder with the given path, if it exists.
    fn find(&self, path: &[Arc<str>]) -> (r: Option<usize>)
        requires
            self.wf(),
        ensures
            match r {
                Some(node) => node < self.nodes@.len() && self.tree()[node as int].path == texts(path@),
                None => !self.folders().contains(texts(path@)),
            },
    {
        let ghost wanted = texts(path@);
        let mut node: usize = 0;
        let mut depth: usize = 0;
        proof {
            assert(self.tree()[0].path =~= wanted.take(0));
        }
        while depth < path.len()
            invariant
                depth <= path@.len(),
                wanted == texts(path@),
                self.wf(),
                node < self.nodes@.len(),
                self.tree()[node as int].path == wanted.take(depth as int),
            decreases path@.len() - depth,
        {
            let ghost tree = self.tree();
            let ghost name = path@[depth as int]@;
            assert(wanted[depth as int] == name);
            assert(wanted.take(depth + 1) =~= wanted.take(depth as int).push(name));
            match index_of_name(&self.nodes[node].children, &path[depth]) {
                Some(child) => {
                    assert(child_link_ok(tree, node as int, name));
                    node = child;
                },
                None => {
                    proof {
                        if self.folders().contains(wanted) {
                            let x = choose|x: int| folder_at(tree, x, wanted);
                            let a = lemma_ancestor(tree, self.catalog@.len() as int, x, depth as int);
                            lemma_one_folder_per_path(tree, self.catalog@.len() as int, a, node as int);
                        }
                    }
                    return None;
                },
            }
            depth += 1;
        }
        proof {
            assert(wanted.take(depth as int) =~= wanted);
        }
        Some(node)
    }

    /// The folder with the given path, made on the way down where it or a
    /// folder above it did not exist. Nothing is filed by this.
    fn get_path(&mut self, path: &[Arc<str>]) -> (node: usize)
        requires
            old(self).sound(),
        ensures
            final(self).sound(),
            old(self).nodes@.len() <= final(self).nodes@.len(),
            forall|n: int|
                0 <= n < old(self).nodes@.len() ==> (#[trigger] final(self).tree()[n]).path == old(self).tree()[n].path,
            forall|n: int|
                old(self).nodes@.len() <= n < final(self).nodes@.len() ==> (#[trigger] final(self).tree()[n]).path.is_prefix_of(texts(path@)),
            node < final(self).nodes@.len(),
            final(self).tree()[node as int].path == texts(path@),
            final(self).entries() == old(self).entries(),
            final(self).catalog == old(self).catalog,
            forall|folder: Path| #[trigger]
                final(self).folders().contains(folder) <==> old(self).folders().contains(folder)
                    || folder.is_prefix_of(texts(path@)),
    {
        let ghost wanted = texts(path@);
        let mut node: usize = 0;
        let mut depth: usize = 0;
        proof {
            assert(self.tree()[0].path =~= wanted.take(0));
            assert forall|folder: Path|
                folder.is_prefix_of(wanted) && folder.len() <= 0 implies self.folders().contains(
                folder,
            ) by {
                assert(folder =~= Seq::empty());
                assert(folder_at(self.tree(), 0, folder));
            }
        }
        while depth < path.len()
            invariant
                depth <= path@.len(),
                wanted == texts(path@),
                self.sound(),
                old(self).nodes@.len() <= self.nodes@.len(),
                forall|n: int|
                    0 <= n < old(self).nodes@.len() ==> (#[trigger] self.tree()[n]).path == old(self).tree()[n].path,
                forall|n: int|
                    old(self).nodes@.len() <= n < self.nodes@.len() ==> (#[trigger] self.tree()[n]).path.is_prefix_of(
                        wanted,
                    ),
                node < self.nodes@.len(),
                self.tree()[node as int].path == wanted.take(depth as int),
                self.entries() == old(self).entries(),
                self.catalog == old(self).catalog,
                forall|folder: Path| #[trigger]
                    self.folders().contains(folder) <==> old(self).folders().contains(folder) || (
                    folder.is_prefix_of(wanted) && folder.len() <= depth),
            decreases path@.len() - depth,
        {
            let ghost before = *self;
            let ghost tree = self.tree();
            let ghost shelf = self.shelf();
            let ghost name = path@[depth as int]@;
            let ghost below = wanted.take(depth + 1);
            proof {
                assert(wanted[depth as int] == name);
                assert(below =~= wanted.take(depth as int).push(name));
                assert forall|folder: Path|
                    folder.is_prefix_of(wanted) && folder.len() <= depth + 1 implies folder.len()
                    <= depth || folder == below by {
                    if folder.len() == depth + 1 {
                        assert(folder =~= below);
                    }
                }
                assert(below.is_prefix_of(wanted));
            }
            match index_of_name(&self.nodes[node].children, &path[depth]) {
                Some(child) => {
                    proof {
                        assert(child_link_ok(tree, node as int, name));
                        assert(folder_at(tree, child as int, below));
                    }
                    node = child;
                },
                None => {
                    let child = self.nodes.len();
                    let folder = Node {
                        path: extended(&self.nodes[node].path, &path[depth]),
                        parent: node,
                        fixtures: new_index_set(),
                        children: new_name_map(),
                    };
                    insert_name(&mut self.nodes[node].children, share(&path[depth]), child);
                    self.nodes.push(folder);
                    proof {
                        let grown = with_child(tree, node as int, name);
                        assert(texts(folder.path@) =~= tree[node as int].path.push(name));
                        assert(folder.model().fixtures =~= Set::empty());
                        assert(folder.model().children =~= Map::empty());
                        assert(self.tree() =~= grown);
                        lemma_with_child(tree, shelf, node as int, name);
                        assert(self.shelf() == shelf);
                        assert forall|i: int, j: int|
                            0 <= i < j < self.catalog@.len() implies #[trigger] self.shelved_once(
                            i,
                            j,
                        ) by {
                            assert(before.shelved_once(i, j));
                        }
                    }
                    node = child;
                },
            }
            proof {
                assert(self.folders().contains(below));
                assert forall|folder: Path| #[trigger]
                    self.folders().contains(folder) <==> old(self).folders().contains(folder) || (
                    folder.is_prefix_of(wanted) && folder.len() <= depth + 1) by {
                    assert(self.folders().contains(folder) <==> before.folders().contains(folder)
                        || folder == below);
                }
            }
            depth += 1;
        }
        proof {
            assert(wanted.take(depth as int) =~= wanted);
        }
        node
    }

    /// The place of a fixture in the list of fixtures, where it is put at
    /// the end if no fixture like it is there yet.
    fn intern(&mut self, fixture: Arc<Fixture>) -> (id: usize)
        requires
            old(self).sound(),
        ensures
            final(self).sound(),
            id < final(self).catalog@.len(),
            final(self).shelf()[id as int] == fixture@,
            final(self).shelf() == filing(old(self).shelf(), fixture@),
            final(self).entries() == old(self).entries(),
            final(self).folders() == old(self).folders(),
            final(self).nodes == old(self).nodes,
    {
        let mut id: usize = 0;
        while id < self.catalog.len()
            invariant
                id <= self.catalog@.len(),
                self.sound(),
                *self == *old(self),
                forall|i: int| 0 <= i < id ==> self.shelf()[i] != fixture@,
            decreases self.catalog@.len() - id,
        {
            if self.catalog[id].same_as(&fixture) {
                assert(self.shelf()[id as int] == fixture@);
                return id;
            }
            id += 1;
        }
        let ghost tree = self.tree();
        let ghost shelf = self.shelf();
        proof {
            if shelf.contains(fixture@) {
                let i = choose|i: int| 0 <= i < shelf.len() && shelf[i] == fixture@;
                assert(self.shelf()[i] != fixture@);
            }
        }
        self.catalog.push(fixture);
        proof {
            assert(self.shelf() =~= shelf.push(fixture@));
            lemma_longer_shelf(tree, shelf, fixture@);
            assert forall|i: int, j: int| 0 <= i < j < self.catalog@.len() implies #[trigger] self.shelved_once(
                i,
                j,
            ) by {
                if j < shelf.len() {
                    assert(old(self).shelved_once(i, j));
                }
            }
        }
        id
    }

    /// Files a fixture in the folder with the given path. The folder and
    /// those above it are made where they do not exist.
    ///
    /// The entry is added to what is filed, which makes no difference where
    /// a fixture like it is in that folder already; the folders are joined
    /// by every beginning of the path.
    pub fn put_path(&mut self, path: &[Arc<str>], fixture: Arc<Fixture>)
        requires
            old(self).wf(),
        ensures
            final(self).wf(),
            final(self).entries() == old(self).entries().insert((texts(path@), fixture@)),
            final(self).filed() == filing(old(self).filed(), fixture@),
            forall|folder: Path| #[trigger]
                final(self).folders().contains(folder) <==> old(self).folders().contains(folder)
                    || folder.is_prefix_of(texts(path@)),
    {
        let ghost wanted = texts(path@);
        let ghost start = *self;
        let node = self.get_path(path);
        let id = self.intern(fixture);
        let ghost before = *self;
        let ghost tree = self.tree();
        let ghost shelf = self.shelf();
        insert_index(&mut self.nodes[node].fixtures, id);
        proof {
            assert(self.tree() =~= with_fixture(tree, node as int, id));
            lemma_with_fixture(tree, shelf, node as int, id);
            assert(self.shelf() == shelf);
            assert forall|i: int, j: int| 0 <= i < j < self.catalog@.len() implies #[trigger] self.shelved_once(
                i,
                j,
            ) by {
                assert(before.shelved_once(i, j));
            }
            assert forall|n: int| 0 < n < self.nodes@.len() implies #[trigger] self.reaches(n) by {
                assert(self.tree()[n].path == tree[n].path);
                if n < start.nodes@.len() {
                    assert(start.reaches(n));
                    let via = choose|via: Entry| #[trigger]
                        start.entries().contains(via) && start.tree()[n].path.is_prefix_of(via.0);
                    assert(self.entries().contains(via));
                } else {
                    assert(self.entries().contains((wanted, fixture@)));
                }
            }
        }
    }

    /// Whether the catalogue is empty: nothing is filed and no folder was
    /// made.
    pub fn is_empty(&self) -> (r: bool)
        requires
            self.wf(),
        ensures
            r == (self.entries() == Set::<Entry>::empty() && self.folders() == set![
                Seq::<Seq<char>>::empty(),
            ]),
    {
        let bare = no_indices(&self.nodes[0].fixtures);
        let r = bare && no_names(&self.nodes[0].children);
        proof {
            let tree = self.tree();
            let top = Seq::<Seq<char>>::empty();
            assert(tree[0].path =~= top);
            assert(folder_at(tree, 0, top));
            if r {
                assert forall|folder: Path| self.folders().contains(folder) implies folder == top by {
                    if folder.len() > 0 {
                        let x = choose|x: int| folder_at(tree, x, folder);
                        let a = lemma_ancestor(tree, self.catalog@.len() as int, x, 0);
                        assert(folder.take(0) =~= top);
                        lemma_one_folder_per_path(tree, self.catalog@.len() as int, a, 0);
                        assert(tree[0].children.dom().contains(folder[0]));
                    } else {
                        assert(folder =~= top);
                    }
                }
                assert(self.folders() =~= set![top]);
                assert forall|entry: Entry| !self.entries().contains(entry) by {
                    if self.entries().contains(entry) {
                        let (n, id) = choose|n: int, id: usize| entry_at(tree, self.shelf(), n, id, entry);
                        assert(folder_at(tree, n, tree[n].path));
                        assert(self.folders().contains(tree[n].path));
                        lemma_one_folder_per_path(tree, self.catalog@.len() as int, n, 0);
                        assert(tree[0].fixtures.contains(id));
                    }
                }
                assert(self.entries() =~= Set::<Entry>::empty());
            } else if !bare {
                let id = choose|id: usize| tree[0].fixtures.contains(id);
                assert(tree[0].fixtures.contains(id)) by {
                    if forall|other: usize| !tree[0].fixtures.contains(other) {
                        assert(tree[0].fixtures =~= Set::empty());
                    }
                }
                assert(fixture_ok(tree, 0, id, self.catalog@.len() as int));
                assert(entry_at(tree, self.shelf(), 0, id, (top, self.shelf()[id as int])));
                assert(self.entries().contains((top, self.shelf()[id as int])));
            } else {
                let name = choose|name: Seq<char>| tree[0].children.dom().contains(name);
                assert(tree[0].children.dom().contains(name)) by {
                    if forall|other: Seq<char>| !tree[0].children.dom().contains(other) {
                        assert(tree[0].children.dom() =~= Set::empty());
                    }
                }
                assert(child_link_ok(tree, 0, name));
                let child = tree[0].children[name] as int;
                assert(folder_at(tree, child, top.push(name)));
                assert(self.folders().contains(top.push(name)));
                assert(top.push(name).len() == 1);
            }
        }
        r
    }
}

impl FixtureStore {
    /// Whether the fixture at index `a` is listed before the one at `b`: by
    /// model name, and by index where the names are the same.
    spec fn files_before(&self, a: usize, b: usize) -> bool {
        let model_a = self.shelf()[a as int].model;
        let model_b = self.shelf()[b as int].model;
        precedes(model_a, model_b) || (model_a == model_b && a < b)
    }

    /// `files_before` is a strict order in which any two indices compare.
    proof fn lemma_files_before(&self, a: usize, b: usize, c: usize)
        ensures
            !self.files_before(a, a),
            a != b ==> self.files_before(a, b) || self.files_before(b, a),
            self.files_before(a, b) && self.files_before(b, c) ==> self.files_before(a, c),
    {
        let model_a = self.shelf()[a as int].model;
        let model_b = self.shelf()[b as int].model;
        let model_c = self.shelf()[c as int].model;
        lemma_precedes_irreflexive(model_a);
        lemma_precedes_irreflexive(model_b);
        lemma_precedes_total(model_a, model_b);
        if precedes(model_a, model_b) && precedes(model_b, model_c) {
            lemma_precedes_transitive(model_a, model_b, model_c);
        }
        if precedes(model_a, model_b) {
            lemma_precedes_asymmetric(model_a, model_b);
        }
    }

    fn goes_before(&self, a: usize, b: usize) -> (r: bool)
        requires
            a < self.catalog@.len(),
            b < self.catalog@.len(),
        ensures
            r == self.files_before(a, b),
    {
        let model_a = &self.catalog[a].model;
        let model_b = &self.catalog[b].model;
        text_precedes(model_a, model_b) || (a < b && same_text(model_a, model_b))
    }

    /// The given indices in the order in which their fixtures are listed.
    fn sort_by_model(&self, ids: Vec<usize>) -> (r: Vec<usize>)
        requires
            ids@.no_duplicates(),
            forall|i: int| 0 <= i < ids@.len() ==> (#[trigger] ids@[i]) < self.catalog@.len(),
        ensures
            r@.no_duplicates(),
            r@.len() == ids@.len(),
            forall|id: usize| #[trigger] r@.contains(id) <==> ids@.contains(id),
            forall|i: int, j: int| 0 <= i < j < r@.len() ==> self.files_before(#[trigger] r@[i], #[trigger] r@[j]),
    {
        let ghost before = |a: usize, b: usize| self.files_before(a, b);
        let mut r: Vec<usize> = Vec::new();
        let mut done: usize = 0;
        while done < ids.len()
            invariant
                done <= ids@.len(),
                r@.len() == done,
                r@.no_duplicates(),
                ids@.no_duplicates(),
                before == |a: usize, b: usize| self.files_before(a, b),
                forall|i: int| 0 <= i < ids@.len() ==> (#[trigger] ids@[i]) < self.catalog@.len(),
                forall|id: usize| #[trigger] r@.contains(id) <==> ids@.take(done as int).contains(id),
                ascending(r@, before),
            decreases ids@.len() - done,
        {
            let id = ids[done];
            proof {
                assert forall|i: int| 0 <= i < r@.len() implies (#[trigger] r@[i]) < self.catalog@.len() by {
                    assert(r@.contains(r@[i]));
                    let j = choose|j: int|
                        0 <= j < ids@.take(done as int).len() && ids@.take(done as int)[j] == r@[i];
                    assert(ids@[j] == r@[i]);
                }
            }
            let mut at: usize = 0;
            while at < r.len() && !self.goes_before(id, r[at])
                invariant
                    at <= r@.len(),
                    id < self.catalog@.len(),
                    forall|i: int| 0 <= i < r@.len() ==> (#[trigger] r@[i]) < self.catalog@.len(),
                    forall|i: int| 0 <= i < at ==> !self.files_before(id, #[trigger] r@[i]),
                decreases r@.len() - at,
            {
                at += 1;
            }
            proof {
                lemma_take_contains(ids@, done as int);
                assert forall|i: int| at <= i < r@.len() implies !before(#[trigger] r@[i], id) by {
                    self.lemma_files_before(r@[i], id, r@[at as int]);
                    if i > at {
                        assert(!before(r@[i], r@[at as int]));
                    } else {
                        self.lemma_files_before(id, r@[at as int], id);
                    }
                }
                lemma_insert_ascending(r@, id, at as int, before);
                lemma_insert_contains(r@, id, at as int);
            }
            r.insert(at, id);
            done += 1;
        }
        proof {
            assert(ids@.take(done as int) =~= ids@);
            assert forall|i: int, j: int| 0 <= i < j < r@.len() implies self.files_before(
                #[trigger] r@[i],
                #[trigger] r@[j],
            ) by {
                assert(!before(r@[j], r@[i]));
                self.lemma_files_before(r@[i], r@[j], r@[i]);
            }
        }
        r
    }

    /// The fixtures filed in a folder, by model name, each once.
    fn fixtures_of(&self, node: usize) -> (r: Vec<Arc<Fixture>>)
        requires
            self.wf(),
            node < self.nodes@.len(),
        ensures
            Self::models(r@).no_duplicates(),
            forall|fixture: FixtureModel| #[trigger]
                Self::models(r@).contains(fixture) <==> self.entries().contains(
                    (self.tree()[node as int].path, fixture),
                ),
            forall|i: int, j: int|
                0 <= i < j < r@.len() ==> fixture_precedes(
                    self.filed(),
                    #[trigger] Self::models(r@)[i],
                    #[trigger] Self::models(r@)[j],
                ),
    {
        let ghost tree = self.tree();
        let ghost shelf = self.shelf();
        let ghost wanted = tree[node as int].path;
        let mut r: Vec<Arc<Fixture>> = Vec::new();
        let unordered = list_indices(&self.nodes[node].fixtures);
        proof {
            assert forall|i: int| 0 <= i < unordered@.len() implies (#[trigger] unordered@[i])
                < self.catalog@.len() by {
                assert(unordered@.to_set().contains(unordered@[i]));
                assert(fixture_ok(tree, node as int, unordered@[i], self.catalog@.len() as int));
            }
        }
        let ids = self.sort_by_model(unordered);
        proof {
            assert forall|k: int| 0 <= k < ids@.len() implies (#[trigger] ids@[k]) < self.catalog@.len() by {
                assert(ids@.contains(ids@[k]));
                assert(unordered@.contains(ids@[k]));
                assert(unordered@.to_set().contains(ids@[k]));
                assert(fixture_ok(tree, node as int, ids@[k], self.catalog@.len() as int));
            }
        }
        let mut i: usize = 0;
        while i < ids.len()
            invariant
                i <= ids@.len(),
                r@.len() == i,
                forall|k: int| 0 <= k < ids@.len() ==> (#[trigger] ids@[k]) < self.catalog@.len(),
                forall|k: int| 0 <= k < i ==> (#[trigger] r@[k]) == self.catalog@[ids@[k] as int],
            decreases ids@.len() - i,
        {
            r.push(share(&self.catalog[ids[i]]));
            i += 1;
        }
        proof {
            let listed = Self::models(r@);
            assert forall|k: int| 0 <= k < ids@.len() implies (#[trigger] ids@[k]) < self.catalog@.len()
                && tree[node as int].fixtures.contains(ids@[k]) by {
                assert(ids@.contains(ids@[k]));
                assert(unordered@.contains(ids@[k]));
                assert(unordered@.to_set().contains(ids@[k]));
                assert(fixture_ok(tree, node as int, ids@[k], self.catalog@.len() as int));
            }
            assert forall|k: int| 0 <= k < listed.len() implies #[trigger] listed[k] == shelf[ids@[k] as int] by {}
            assert forall|a: int, b: int|
                0 <= a < listed.len() && 0 <= b < listed.len() && a != b implies listed[a]
                != listed[b] by {
                let low = if ids@[a] < ids@[b] { ids@[a] } else { ids@[b] };
                let high = if ids@[a] < ids@[b] { ids@[b] } else { ids@[a] };
                assert(ids@[a] != ids@[b]);
                assert(self.shelved_once(low as int, high as int));
            }
            assert forall|fixture: FixtureModel| #[trigger]
                listed.contains(fixture) <==> self.entries().contains((wanted, fixture)) by {
                if listed.contains(fixture) {
                    let k = choose|k: int| 0 <= k < listed.len() && listed[k] == fixture;
                    assert(entry_at(tree, shelf, node as int, ids@[k], (wanted, fixture)));
                }
                if self.entries().contains((wanted, fixture)) {
                    let (n, id) = choose|n: int, id: usize|
                        entry_at(tree, shelf, n, id, (wanted, fixture));
                    lemma_one_folder_per_path(tree, self.catalog@.len() as int, n, node as int);
                    assert(unordered@.to_set().contains(id));
                    assert(unordered@.contains(id));
                    assert(ids@.contains(id));
                    let k = choose|k: int| 0 <= k < ids@.len() && ids@[k] == id;
                    assert(listed[k] == fixture);
                }
            }
            assert forall|a: int, b: int| 0 <= a < b < r@.len() implies fixture_precedes(
                self.filed(),
                #[trigger] listed[a],
                #[trigger] listed[b],
            ) by {
                assert(self.files_before(ids@[a], ids@[b]));
                assert(listed[a] == shelf[ids@[a] as int] && listed[b] == shelf[ids@[b] as int]);
                self.lemma_place(ids@[a] as int);
                self.lemma_place(ids@[b] as int);
            }
        }
        r
    }

    /// The fixtures filed in the folder with the given path, by model name.
    ///
    /// Each fixture of the folder is listed once. A folder that does not
    /// exist has none.
    pub fn fixtures_at(&self, path: &[Arc<str>]) -> (r: Vec<Arc<Fixture>>)
        requires
            self.wf(),
        ensures
            Self::models(r@).no_duplicates(),
            forall|fixture: FixtureModel| #[trigger]
                Self::models(r@).contains(fixture) <==> self.entries().contains(
                    (texts(path@), fixture),
                ),
            forall|i: int, j: int|
                0 <= i < j < r@.len() ==> fixture_precedes(
                    self.filed(),
                    #[trigger] Self::models(r@)[i],
                    #[trigger] Self::models(r@)[j],
                ),
    {
        match self.find(path) {
            None => {
                let r: Vec<Arc<Fixture>> = Vec::new();
                proof {
                    assert forall|fixture: FixtureModel| !self.entries().contains(
                        (texts(path@), fixture),
                    ) by {
                        if self.entries().contains((texts(path@), fixture)) {
                            self.lemma_entries_are_in_folders((texts(path@), fixture));
                        }
                    }
                    assert(Self::models(r@) =~= Seq::empty());
                }
                r
            },
            Some(node) => self.fixtures_of(node),
        }
    }

    /// Whether the folder at index `a` is listed before the one at `b`.
    spec fn lists_before(&self, a: usize, b: usize) -> bool {
        path_precedes(self.tree()[a as int].path, self.tree()[b as int].path)
    }

    /// The folders in the order of their paths.
    fn sorted_nodes(&self) -> (r: Vec<usize>)
        requires
            self.wf(),
        ensures
            r@.len() == self.nodes@.len(),
            r@.no_duplicates(),
            forall|i: int| 0 <= i < r@.len() ==> (#[trigger] r@[i]) < self.nodes@.len(),
            forall|node: usize| node < self.nodes@.len() ==> #[trigger] r@.contains(node),
            forall|i: int, j: int| 0 <= i < j < r@.len() ==> self.lists_before(#[trigger] r@[i], #[trigger] r@[j]),
    {
        let ghost tree = self.tree();
        let ghost before = |a: usize, b: usize| self.lists_before(a, b);
        let mut r: Vec<usize> = Vec::new();
        let mut node: usize = 0;
        while node < self.nodes.len()
            invariant
                node <= self.nodes@.len(),
                r@.len() == node,
                r@.no_duplicates(),
                tree == self.tree(),
                before == |a: usize, b: usize| self.lists_before(a, b),
                forall|i: int| 0 <= i < r@.len() ==> (#[trigger] r@[i]) < node,
                forall|other: usize| other < node ==> #[trigger] r@.contains(other),
                ascending(r@, before),
            decreases self.nodes@.len() - node,
        {
            let mut at: usize = 0;
            while at < r.len() && !path_goes_before(&self.nodes[node].path, &self.nodes[r[at]].path)
                invariant
                    at <= r@.len(),
                    node < self.nodes@.len(),
                    tree == self.tree(),
                    forall|i: int| 0 <= i < r@.len() ==> (#[trigger] r@[i]) < node,
                    forall|i: int| 0 <= i < at ==> !self.lists_before(node, #[trigger] r@[i]),
                decreases r@.len() - at,
            {
                at += 1;
            }
            proof {
                assert forall|i: int| at <= i < r@.len() implies !before(#[trigger] r@[i], node) by {
                    if before(r@[i], node) {
                        lemma_path_precedes_transitive(
                            tree[r@[i] as int].path,
                            tree[node as int].path,
                            tree[r@[at as int] as int].path,
                        );
                        if i > at {
                            assert(!before(r@[i], r@[at as int]));
                        } else {
                            lemma_path_precedes_irreflexive(tree[r@[i] as int].path);
                        }
                    }
                }
                assert(!r@.contains(node)) by {
                    if r@.contains(node) {
                        let i = choose|i: int| 0 <= i < r@.len() && r@[i] == node;
                        assert(r@[i] < node);
                    }
                }
                lemma_insert_ascending(r@, node, at as int, before);
                lemma_insert_contains(r@, node, at as int);
                let grown = r@.insert(at as int, node);
                assert forall|i: int| 0 <= i < grown.len() implies (#[trigger] grown[i]) < node + 1 by {
                    assert(grown.contains(grown[i]));
                    if grown[i] != node {
                        assert(r@.contains(grown[i]));
                        let k = choose|k: int| 0 <= k < r@.len() && r@[k] == grown[i];
                        assert(r@[k] < node);
                    }
                }
            }
            r.insert(at, node);
            node += 1;
        }
        proof {
            assert forall|i: int, j: int| 0 <= i < j < r@.len() implies self.lists_before(
                #[trigger] r@[i],
                #[trigger] r@[j],
            ) by {
                assert(!before(r@[j], r@[i]));
                assert(r@[i] != r@[j]);
                if r@[i] < r@[j] {
                    assert(apart(tree, r@[i] as int, r@[j] as int));
                } else {
                    assert(apart(tree, r@[j] as int, r@[i] as int));
                }
                lemma_path_precedes_total(tree[r@[i] as int].path, tree[r@[j] as int].path);
            }
        }
        r
    }

    /// A list of filed fixtures as entries.
    pub open spec fn listing(items: Seq<(Vec<Arc<str>>, Arc<Fixture>)>) -> Seq<Entry> {
        items.map_values(|item: (Vec<Arc<str>>, Arc<Fixture>)| (texts(item.0@), item.1@))
    }

    /// Everything that is filed, each entry once, in the order in which a
    /// menu shows it: the fixtures of a folder by model name, then the
    /// folders below it by name, each with all that is in it (see
    /// [`entry_precedes`]).
    pub fn traverse(&self) -> (r: Vec<(Vec<Arc<str>>, Arc<Fixture>)>)
        requires
            self.wf(),
        ensures
            Self::listing(r@).no_duplicates(),
            forall|entry: Entry| #[trigger]
                Self::listing(r@).contains(entry) <==> self.entries().contains(entry),
            forall|i: int, j: int|
                0 <= i < j < r@.len() ==> entry_precedes(
                    self.filed(),
                    #[trigger] Self::listing(r@)[i],
                    #[trigger] Self::listing(r@)[j],
                ),
    {
        let ghost tree = self.tree();
        let ghost shelf = self.shelf();
        let order = self.sorted_nodes();
        let mut r: Vec<(Vec<Arc<str>>, Arc<Fixture>)> = Vec::new();
        let mut done: usize = 0;
        proof {
            assert(Self::listing(r@) =~= Seq::empty());
        }
        while done < order.len()
            invariant
                done <= order@.len(),
                self.wf(),
                tree == self.tree(),
                shelf == self.shelf(),
                order@.len() == self.nodes@.len(),
                forall|i: int| 0 <= i < order@.len() ==> (#[trigger] order@[i]) < self.nodes@.len(),
                forall|i: int, j: int|
                    0 <= i < j < order@.len() ==> self.lists_before(#[trigger] order@[i], #[trigger] order@[j]),
                forall|k: int, q: int|
                    0 <= k < r@.len() && done <= q < order@.len() ==> path_precedes(
                        (#[trigger] Self::listing(r@)[k]).0,
                        tree[(#[trigger] order@[q]) as int].path,
                    ),
                forall|i: int, j: int|
                    0 <= i < j < r@.len() ==> entry_precedes(
                        shelf,
                        #[trigger] Self::listing(r@)[i],
                        #[trigger] Self::listing(r@)[j],
                    ),
                Self::listing(r@).no_duplicates(),
                forall|entry: Entry| #[trigger]
                    Self::listing(r@).contains(entry) <==> self.entries().contains(entry)
                        && visited(tree, order@, done as int, entry.0),
            decreases order@.len() - done,
        {
            let node = order[done];
            let ghost here = tree[node as int].path;
            let ghost listed = Self::listing(r@);
            let fixtures = self.fixtures_of(node);
            let mut chunk: Vec<(Vec<Arc<str>>, Arc<Fixture>)> = Vec::new();
            let mut i: usize = 0;
            while i < fixtures.len()
                invariant
                    i <= fixtures@.len(),
                    chunk@.len() == i,
                    node < self.nodes@.len(),
                    here == texts(self.nodes@[node as int].path@),
                    forall|k: int|
                        0 <= k < i ==> #[trigger] Self::listing(chunk@)[k] == (here, fixtures@[k]@),
                decreases fixtures@.len() - i,
            {
                let ghost shorter = chunk@;
                chunk.push((copy_path(&self.nodes[node].path), share(&fixtures[i])));
                proof {
                    assert forall|k: int| 0 <= k < i + 1 implies #[trigger] Self::listing(chunk@)[k] == (
                        here,
                        fixtures@[k]@,
                    ) by {
                        if k < i {
                            assert(chunk@[k] == shorter[k]);
                            assert(Self::listing(shorter)[k] == (here, fixtures@[k]@));
                        }
                    }
                }
                i += 1;
            }
            let ghost part = Self::listing(chunk@);
            proof {
                assert(part.len() == fixtures@.len());
                assert forall|k: int| 0 <= k < part.len() implies #[trigger] part[k] == (
                    here,
                    Self::models(fixtures@)[k],
                ) by {}
            }
            r.append(&mut chunk);
            proof {
                let longer = Self::listing(r@);
                let next = done + 1;
                assert(longer =~= listed + part);
                assert forall|k: int| 0 <= k < listed.len() implies path_precedes(
                    (#[trigger] listed[k]).0,
                    here,
                ) by {
                    assert(path_precedes(listed[k].0, tree[order@[done as int] as int].path));
                }
                assert forall|k: int, q: int|
                    0 <= k < longer.len() && done + 1 <= q < order@.len() implies path_precedes(
                    (#[trigger] longer[k]).0,
                    tree[(#[trigger] order@[q]) as int].path,
                ) by {
                    if k < listed.len() {
                        assert(longer[k] == listed[k]);
                    } else {
                        assert(longer[k] == part[k - listed.len()]);
                        assert(self.lists_before(order@[done as int], order@[q]));
                    }
                }
                assert forall|a: int, b: int| 0 <= a < b < longer.len() implies entry_precedes(
                    shelf,
                    #[trigger] longer[a],
                    #[trigger] longer[b],
                ) && longer[a] != longer[b] by {
                    if b < listed.len() {
                        assert(longer[a] == listed[a] && longer[b] == listed[b]);
                        assert(entry_precedes(shelf, listed[a], listed[b]));
                    } else if a < listed.len() {
                        assert(longer[a] == listed[a] && longer[b] == part[b - listed.len()]);
                        assert(path_precedes(listed[a].0, here));
                        lemma_path_precedes_irreflexive(here);
                    } else {
                        let from_a = a - listed.len();
                        let from_b = b - listed.len();
                        assert(longer[a] == part[from_a] && longer[b] == part[from_b]);
                        assert(fixture_precedes(
                            shelf,
                            Self::models(fixtures@)[from_a],
                            Self::models(fixtures@)[from_b],
                        ));
                        assert(Self::models(fixtures@)[from_a] != Self::models(fixtures@)[from_b]);
                    }
                }
                assert forall|entry: Entry| #[trigger]
                    longer.contains(entry) <==> self.entries().contains(entry) && visited(
                        tree,
                        order@,
                        next,
                        entry.0,
                    ) by {
                    if longer.contains(entry) {
                        let k = choose|k: int| 0 <= k < longer.len() && longer[k] == entry;
                        if k < listed.len() {
                            assert(listed[k] == entry);
                            assert(listed.contains(entry));
                            let q = choose|q: int| came_by(tree, order@, done as int, q, entry.0);
                            assert(came_by(tree, order@, next, q, entry.0));
                        } else {
                            let from = k - listed.len();
                            assert(part[from] == entry);
                            assert(Self::models(fixtures@).contains(Self::models(fixtures@)[from]));
                            assert(came_by(tree, order@, next, done as int, entry.0));
                        }
                    }
                    if self.entries().contains(entry) && visited(tree, order@, next, entry.0) {
                        let q = choose|q: int| came_by(tree, order@, next, q, entry.0);
                        if q < done {
                            assert(came_by(tree, order@, done as int, q, entry.0));
                            assert(listed.contains(entry));
                            let k = choose|k: int| 0 <= k < listed.len() && listed[k] == entry;
                            assert(longer[k] == entry);
                        } else {
                            assert(entry.0 == here);
                            assert(Self::models(fixtures@).contains(entry.1));
                            let k = choose|k: int|
                                0 <= k < fixtures@.len() && Self::models(fixtures@)[k] == entry.1;
                            assert(part[k] == entry);
                            assert(longer[listed.len() + k] == entry);
                        }
                    }
                }
            }
            done += 1;
        }
        proof {
            let listed = Self::listing(r@);
            assert forall|entry: Entry| #[trigger]
                listed.contains(entry) <==> self.entries().contains(entry) by {
                if self.entries().contains(entry) {
                    let (n, id) = choose|n: int, id: usize| entry_at(tree, shelf, n, id, entry);
                    assert(order@.contains(n as usize));
                    let q = choose|q: int| 0 <= q < order@.len() && order@[q] == n as usize;
                    assert(came_by(tree, order@, done as int, q, entry.0));
                }
            }
        }
        r
    }

    /// Whether a folder has anything to show: a fixture filed in it, or a
    /// folder below it.
    pub open spec fn shows(&self, folder: Path) -> bool {
        ||| exists|fixture: FixtureModel| #[trigger] self.entries().contains((folder, fixture))
        ||| exists|name: Seq<char>| #[trigger] self.folders().contains(folder.push(name))
    }

    /// A folder has something to show exactly if it holds a fixture or names
    /// a child.
    proof fn lemma_shows(&self, node: int)
        requires
            self.wf(),
            0 <= node < self.nodes@.len(),
        ensures
            self.shows(self.tree()[node].path) <==> !(self.tree()[node].fixtures == Set::<usize>::empty()
                && self.tree()[node].children.dom() == Set::<Seq<char>>::empty()),
    {
        let tree = self.tree();
        let shelf = self.shelf();
        let here = tree[node].path;
        let count = self.catalog@.len() as int;
        if exists|fixture: FixtureModel| #[trigger] self.entries().contains((here, fixture)) {
            let fixture = choose|fixture: FixtureModel| #[trigger] self.entries().contains((here, fixture));
            let (n, id) = choose|n: int, id: usize| entry_at(tree, shelf, n, id, (here, fixture));
            lemma_one_folder_per_path(tree, count, n, node);
            assert(tree[node].fixtures.contains(id));
        }
        if exists|name: Seq<char>| #[trigger] self.folders().contains(here.push(name)) {
            let name = choose|name: Seq<char>| #[trigger] self.folders().contains(here.push(name));
            let x = choose|x: int| folder_at(tree, x, here.push(name));
            assert(x > 0) by {
                assert(here.push(name).len() > 0);
            }
            assert(parent_link_ok(tree, x));
            assert(tree[tree[x].parent].path =~= tree[x].path.drop_last());
            assert(here.push(name).drop_last() =~= here);
            assert(here.push(name).last() == name);
            lemma_one_folder_per_path(tree, count, tree[x].parent, node);
            assert(tree[node].children.dom().contains(name));
        }
        if !(tree[node].fixtures =~= Set::<usize>::empty()) {
            let id = choose|id: usize| tree[node].fixtures.contains(id);
            assert(fixture_ok(tree, node, id, count));
            assert(entry_at(tree, shelf, node, id, (here, shelf[id as int])));
            assert(self.entries().contains((here, shelf[id as int])));
        }
        if !(tree[node].children.dom() =~= Set::<Seq<char>>::empty()) {
            let name = choose|name: Seq<char>| tree[node].children.dom().contains(name);
            assert(child_link_ok(tree, node, name));
            assert(folder_at(tree, tree[node].children[name] as int, here.push(name)));
            assert(self.folders().contains(here.push(name)));
        }
    }

    /// The names of the folders directly below the folder with the given
    /// path, in dictionary order, each once. A folder that does not exist has
    /// none below it.
    ///
    /// A folder with nothing to show (see [`FixtureStore::shows`]) would be
    /// left out. There is none in a sound catalogue (see
    /// [`FixtureStore::lemma_every_folder_shows`]), so every folder directly
    /// below is listed.
    pub fn submenus_at(&self, path: &[Arc<str>]) -> (r: Vec<Arc<str>>)
        requires
            self.wf(),
        ensures
            forall|i: int, j: int|
                0 <= i < j < r@.len() ==> precedes((#[trigger] r@[i])@, (#[trigger] r@[j])@),
            forall|name: Seq<char>| #[trigger]
                texts(r@).contains(name) <==> self.folders().contains(texts(path@).push(name)),
    {
        let r = self.submenus_shown_at(path);
        proof {
            assert forall|name: Seq<char>| #[trigger]
                texts(r@).contains(name) <==> self.folders().contains(
                    texts(path@).push(name),
                ) by {
                if self.folders().contains(texts(path@).push(name)) {
                    self.lemma_every_folder_shows(texts(path@).push(name));
                }
            }
        }
        r
    }

    /// The folders directly below a folder that have something to show.
    fn submenus_shown_at(&self, path: &[Arc<str>]) -> (r: Vec<Arc<str>>)
        requires
            self.wf(),
        ensures
            forall|i: int, j: int|
                0 <= i < j < r@.len() ==> precedes((#[trigger] r@[i])@, (#[trigger] r@[j])@),
            forall|name: Seq<char>| #[trigger]
                texts(r@).contains(name) <==> self.folders().contains(texts(path@).push(name))
                    && self.shows(texts(path@).push(name)),
    {
        let ghost wanted = texts(path@);
        let ghost tree = self.tree();
        let ghost count = self.catalog@.len() as int;
        let ghost before = |a: Seq<char>, b: Seq<char>| precedes(a, b);
        let mut r: Vec<Arc<str>> = Vec::new();
        match self.find(path) {
            None => {
                proof {
                    assert(texts(r@) =~= Seq::empty());
                    assert forall|name: Seq<char>| !self.folders().contains(wanted.push(name)) by {
                        if self.folders().contains(wanted.push(name)) {
                            self.lemma_folders_are_nested(wanted.push(name), wanted.len() as int);
                            assert(wanted.push(name).take(wanted.len() as int) =~= wanted);
                        }
                    }
                }
            },
            Some(node) => {
                let below = list_names(&self.nodes[node].children);
                let ghost names = below@.map_values(|item: (Arc<str>, usize)| item.0@);
                let mut done: usize = 0;
                proof {
                    assert(texts(r@) =~= Seq::empty());
                }
                while done < below.len()
                    invariant
                        done <= below@.len(),
                        self.wf(),
                        tree == self.tree(),
                        count == self.catalog@.len(),
                        node < self.nodes@.len(),
                        tree[node as int].path == wanted,
                        before == |a: Seq<char>, b: Seq<char>| precedes(a, b),
                        names == below@.map_values(|item: (Arc<str>, usize)| item.0@),
                        names.no_duplicates(),
                        names.to_set() == tree[node as int].children.dom(),
                        forall|i: int|
                            0 <= i < below@.len() ==> tree[node as int].children[(#[trigger] below@[i]).0@]
                                == below@[i].1,
                        ascending(texts(r@), before),
                        texts(r@).no_duplicates(),
                        forall|name: Seq<char>| #[trigger]
                            texts(r@).contains(name) <==> names.take(done as int).contains(name)
                                && self.shows(wanted.push(name)),
                    decreases below@.len() - done,
                {
                    let name = &below[done].0;
                    let child = below[done].1;
                    proof {
                        assert(names[done as int] == name@);
                        assert(names.to_set().contains(names[done as int]));
                        assert(child_link_ok(tree, node as int, name@));
                        self.lemma_shows(child as int);
                        lemma_take_contains(names, done as int);
                    }
                    let bare = no_indices(&self.nodes[child].fixtures) && no_names(
                        &self.nodes[child].children,
                    );
                    if !bare {
                        let mut at: usize = 0;
                        while at < r.len() && !text_precedes(name, &r[at])
                            invariant
                                at <= r@.len(),
                                forall|i: int| 0 <= i < at ==> !precedes(name@, (#[trigger] r@[i])@),
                            decreases r@.len() - at,
                        {
                            at += 1;
                        }
                        let ghost listed = texts(r@);
                        proof {
                            assert forall|i: int| 0 <= i < at implies !before(name@, #[trigger] listed[i]) by {}
                            assert forall|i: int| at <= i < listed.len() implies !before(
                                #[trigger] listed[i],
                                name@,
                            ) by {
                                assert(precedes(name@, listed[at as int]));
                                if i > at {
                                    assert(!before(listed[i], listed[at as int]));
                                }
                                if precedes(listed[i], name@) {
                                    lemma_precedes_transitive(listed[i], name@, listed[at as int]);
                                    lemma_precedes_irreflexive(listed[i]);
                                }
                            }
                            lemma_insert_ascending(listed, name@, at as int, before);
                            lemma_insert_contains(listed, name@, at as int);
                        }
                        r.insert(at, share(name));
                        proof {
                            assert(texts(r@) =~= listed.insert(at as int, name@));
                        }
                    }
                    done += 1;
                }
                proof {
                    let listed = texts(r@);
                    assert(names.take(done as int) =~= names);
                    assert forall|i: int, j: int| 0 <= i < j < r@.len() implies precedes(
                        (#[trigger] r@[i])@,
                        (#[trigger] r@[j])@,
                    ) by {
                        assert(!before(listed[j], listed[i]));
                        assert(listed[i] != listed[j]);
                        lemma_precedes_total(listed[i], listed[j]);
                    }
                    assert forall|name: Seq<char>| #[trigger]
                        listed.contains(name) <==> self.folders().contains(wanted.push(name))
                            && self.shows(wanted.push(name)) by {
                        if listed.contains(name) {
                            assert(names.to_set().contains(name));
                            assert(child_link_ok(tree, node as int, name));
                            assert(folder_at(tree, tree[node as int].children[name] as int, wanted.push(name)));
                        }
                        if self.folders().contains(wanted.push(name)) {
                            let x = choose|x: int| folder_at(tree, x, wanted.push(name));
                            assert(x > 0) by {
                                assert(wanted.push(name).len() > 0);
                            }
                            assert(parent_link_ok(tree, x));
                            assert(tree[tree[x].parent].path =~= tree[x].path.drop_last());
                            assert(wanted.push(name).drop_last() =~= wanted);
                            assert(wanted.push(name).last() == name);
                            lemma_one_folder_per_path(tree, count, tree[x].parent, node as int);
                            assert(names.to_set().contains(name));
                        }
                    }
                }
            },
        }
        r
    }

    /// The fixtures of a list as values.
    pub open spec fn models(fixtures: Seq<Arc<Fixture>>) -> Seq<FixtureModel> {
        fixtures.map_values(|fixture: Arc<Fixture>| fixture@)
    }
}

impl Default for FixtureStore {
    /// The empty catalogue.
    fn default() -> (r: Self)
        ensures
            r.wf(),
            r.entries() == Set::<Entry>::empty(),
            r.folders() == set![Seq::<Seq<char>>::empty()],
            r.filed() == Seq::<FixtureModel>::empty(),
    {
        Self::new()
    }
}

} // verus!
