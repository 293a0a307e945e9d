//! The merged index of an image: one entry for each path that the layers
//! define, under the path's normal form.

use vstd::prelude::*;
use vstd::hash_map::StringHashMap;
use vstd::string::{StrSliceExecFns, StringExecFns};
use crate::archive::{entry_views, ArchiveEntry, EntryKind};
use crate::dir_tree::DirectoryTree;
use crate::merge::{action_of, apply, ingest, parent_of};
use crate::path::{
    all_components, begins_with, components, is_normalized, join, join_prefix,
    lemma_components_of_join, lemma_components_valid, lemma_join_normalized,
    lemma_normalized_direct, lemma_rooted_direct, lemma_under_is_below, names, normalize,
    normalize_path, sep, split_path, steps_of,
};
use crate::text::{starts_with, str_eq};
use crate::tree_model::{with_path, Steps, TreeView};

verus! {

/// What the merged index records of a path.
#[derive(Debug, Clone, PartialEq, Eq)]
pub enum FileEntry {
    /// A regular file, with its size in bytes and the layer that holds it.
    File { size: u64, layer_index: usize },
    /// A directory, with the layer that created it.
    Directory { layer_index: usize },
    /// A symbolic or hard link to `target`, with the layer that holds it.
    Symlink { target: String, layer_index: usize },
}

/// A `FileEntry` with its link target as a sequence of characters.
pub enum FileEntryView {
    File { size: u64, layer_index: usize },
    Directory { layer_index: usize },
    Symlink { target: Seq<char>, layer_index: usize },
}

impl View for FileEntry {
    type V = FileEntryView;

    open spec fn view(&self) -> FileEntryView {
        match *self {
            FileEntry::File { size, layer_index } => FileEntryView::File { size, layer_index },
            FileEntry::Directory { layer_index } => FileEntryView::Directory { layer_index },
            FileEntry::Symlink { target, layer_index } => FileEntryView::Symlink {
                target: target@,
                layer_index,
            },
        }
    }
}

impl FileEntryView {
    /// The layer that the entry came from.
    pub open spec fn layer(self) -> usize {
        match self {
            FileEntryView::File { layer_index, .. } => layer_index,
            FileEntryView::Directory { layer_index } => layer_index,
            FileEntryView::Symlink { layer_index, .. } => layer_index,
        }
    }
}

impl FileEntry {
    /// A copy of the entry.
    pub fn duplicate(&self) -> (copy: FileEntry)
        ensures
            copy@ == self@,
    {
        match self {
            FileEntry::File { size, layer_index } => FileEntry::File {
                size: *size,
                layer_index: *layer_index,
            },
            FileEntry::Directory { layer_index } => FileEntry::Directory {
                layer_index: *layer_index,
            },
            FileEntry::Symlink { target, layer_index } => FileEntry::Symlink {
                target: target.clone(),
                layer_index: *layer_index,
            },
        }
    }

    /// The layer that the entry came from.
    pub fn layer_index(&self) -> (layer: usize)
        ensures
            layer == self@.layer(),
    {
        match self {
            FileEntry::File { layer_index, .. } => *layer_index,
            FileEntry::Directory { layer_index } => *layer_index,
            FileEntry::Symlink { layer_index, .. } => *layer_index,
        }
    }

    /// Tells whether the entry is a directory.
    pub fn is_directory(&self) -> (dir: bool)
        ensures
            dir == (self@ is Directory),
    {
        match self {
            FileEntry::Directory { .. } => true,
            _ => false,
        }
    }
}

/// A path lies under the directory `dir` when it begins with `dir`
/// followed by a separator.
pub open spec fn is_under(path: Seq<char>, dir: Seq<char>) -> bool {
    dir.push(sep()).is_prefix_of(path)
}

/// The index without what lies under `dir`.
pub open spec fn without_subtree(
    index: Map<Seq<char>, FileEntryView>,
    dir: Seq<char>,
) -> Map<Seq<char>, FileEntryView> {
    Map::new(|k: Seq<char>| index.contains_key(k) && !is_under(k, dir), |k: Seq<char>| index[k])
}

/// The paths of the directory tree over an index, with their flags. The
/// tree holds the root and, for every indexed path, the path and all the
/// directories above it. An indexed path is a directory exactly if its
/// entry is one; a path that is only implied by what lies below it is a
/// directory, and so is the root.
pub open spec fn tree_paths_of(index: Map<Seq<char>, FileEntryView>) -> Map<Steps, bool> {
    Map::new(
        |s: Steps|
            s.len() == 0 || exists|k: Seq<char>|
                index.contains_key(k) && begins_with(#[trigger] components(k), s),
        |s: Steps| s.len() == 0 || !index.contains_key(join(s)) || index[join(s)] is Directory,
    )
}

/// The part of the index under the first `n` of `keys`.
spec fn part(index: Map<Seq<char>, FileEntryView>, keys: Seq<Seq<char>>, n: int) -> Map<
    Seq<char>,
    FileEntryView,
> {
    Map::new(
        |k: Seq<char>| index.contains_key(k) && exists|j: int| 0 <= j < n && #[trigger] keys[j] == k,
        |k: Seq<char>| index[k],
    )
}

/// What lies at or above a path of components is made of components.
proof fn lemma_prefix_components(s: Steps, steps: Steps)
    requires
        all_components(steps),
        begins_with(steps, s),
    ensures
        all_components(s),
{
}

/// Adding a normalized path to an index adds it to the tree over the
/// index: the path and the directories above it, the path with the flag
/// of its entry.
pub proof fn lemma_tree_paths_insert(
    index: Map<Seq<char>, FileEntryView>,
    key: Seq<char>,
    entry: FileEntryView,
)
    requires
        is_normalized(key),
    ensures
        tree_paths_of(index.insert(key, entry)) == with_path(
            tree_paths_of(index),
            components(key),
            entry is Directory,
            true,
        ),
{
    let more = index.insert(key, entry);
    let steps = components(key);
    let flag = entry is Directory;
    let lhs = tree_paths_of(more);
    let rhs = with_path(tree_paths_of(index), steps, flag, true);
    lemma_components_valid(key);
    assert forall|s: Steps| lhs.contains_key(s) implies lhs[s] == rhs[s] by {
        if s.len() > 0 {
            // `s` is made of components, so it is the components of its
            // own join.
            if begins_with(steps, s) {
                lemma_prefix_components(s, steps);
            } else {
                let k = choose|k: Seq<char>|
                    more.contains_key(k) && begins_with(#[trigger] components(k), s);
                lemma_components_valid(k);
                lemma_prefix_components(s, components(k));
            }
            lemma_components_of_join(s);
            if s != steps && !tree_paths_of(index).contains_key(s) {
                if s.len() == steps.len() {
                    assert(steps.take(s.len() as int) =~= steps);
                }
                if index.contains_key(join(s)) {
                    assert(begins_with(components(join(s)), s)) by {
                        assert(s.take(s.len() as int) =~= s);
                    }
                }
            }
        }
    }
}

/// The tree over an index holds every indexed path. An indexed path
/// names its own components as the steps to look up, with a separator in
/// front or without, and the node that stands at the end of them has
/// that path for its own: with a separator in front where the root is
/// named, without one where it is not.
pub proof fn lemma_indexed_path_round_trip(
    index: Map<Seq<char>, FileEntryView>,
    tree: TreeView,
    path: Seq<char>,
    id: int,
)
    requires
        index.contains_key(path),
        is_normalized(path),
        tree.wf(),
        tree.paths() == tree_paths_of(index),
        0 <= id < tree.len(),
        tree.steps_to(id) == components(path),
    ensures
        steps_of(path) == Some(components(path)),
        steps_of(seq![sep()] + path) == Some(components(path)),
        tree.has(components(path)),
        tree.paths()[components(path)] == (index[path] is Directory) || components(path).len() == 0,
        tree.pwd(id, false) == path,
        tree.pwd(id, true) == seq![sep()] + path,
{
    let steps = components(path);
    lemma_normalized_direct(path);
    lemma_rooted_direct(path);
    assert(begins_with(components(path), steps)) by {
        assert(steps.take(steps.len() as int) =~= steps);
    }
}

/// The empty path and the path `/` name no steps: both are spellings of
/// the root.
pub proof fn lemma_root_spellings()
    ensures
        steps_of(""@) == Some(Seq::<Seq<char>>::empty()),
        steps_of("/"@) == Some(Seq::<Seq<char>>::empty()),
{
    reveal_strlit("");
    reveal_strlit("/");
    let none = Seq::<char>::empty();
    assert(""@ =~= none);
    assert("/"@ =~= seq![sep()] + none);
    assert(components(none) =~= Seq::<Seq<char>>::empty());
    assert(join(components(none)) =~= none);
    lemma_normalized_direct(none);
    lemma_rooted_direct(none);
}

/// What an index loses when all under a directory is removed are the
/// paths strictly below the directory: those whose components begin with
/// the directory's and go on. The directory itself and all beside it
/// stay.
pub proof fn lemma_without_subtree(
    index: Map<Seq<char>, FileEntryView>,
    dir: Seq<char>,
    path: Seq<char>,
)
    requires
        is_normalized(dir),
        is_normalized(path),
        dir.len() > 0,
    ensures
        without_subtree(index, dir).contains_key(path) <==> index.contains_key(path) && !(components(
            dir,
        ).len() < components(path).len() && begins_with(
            components(path),
            components(dir),
        )),
        without_subtree(index, dir).contains_key(path) ==> without_subtree(index, dir)[path]
            == index[path],
        index.contains_key(dir) ==> without_subtree(index, dir).contains_key(dir),
{
    lemma_under_is_below(path, dir);
}

/// The keys are listed once each in `keys`, and nothing else is.
spec fn lists(keys: Seq<Seq<char>>, dom: Set<Seq<char>>) -> bool {
    &&& forall|i: int| 0 <= i < keys.len() ==> dom.contains(#[trigger] keys[i])
    &&& forall|k: Seq<char>| dom.contains(k) ==> keys.contains(k)
    &&& keys.no_duplicates()
}

/// Dropping the key at `i` from the list, with the last key moved into its
/// place, lists the keys without it.
proof fn lemma_lists_swap_remove(keys: Seq<Seq<char>>, dom: Set<Seq<char>>, i: int)
    requires
        lists(keys, dom),
        0 <= i < keys.len(),
    ensures
        lists(keys.update(i, keys.last()).drop_last(), dom.remove(keys[i])),
{
    let after = keys.update(i, keys.last()).drop_last();
    let rest = dom.remove(keys[i]);
    let last = keys.len() - 1;
    assert forall|k: Seq<char>| rest.contains(k) implies after.contains(k) by {
        let j = choose|j: int| 0 <= j < keys.len() && keys[j] == k;
        if j == last {
            assert(after[i] == k);
        } else {
            assert(after[j] == k);
        }
    }
}

/// The position of `key` among `paths`, if it is there.
fn position_of(paths: &Vec<String>, key: &str) -> (r: Option<usize>)
    ensures
        match r {
            Some(i) => i < paths.len() && paths[i as int]@ == key@,
            None => !names(paths@).contains(key@),
        },
{
    let mut i: usize = 0;
    while i < paths.len()
        invariant
            i <= paths.len(),
            forall|j: int| 0 <= j < i ==> paths[j]@ != key@,
        decreases paths.len() - i,
    {
        if str_eq(paths[i].as_str(), key) {
            return Some(i);
        }
        i = i + 1;
    }
    None
}

/// The merged index: a map from normalized paths to entries.
pub struct VirtualFileSystem {
    entries: StringHashMap<FileEntry>,
    paths: Vec<String>,
}

impl Default for VirtualFileSystem {
    /// An empty index.
    fn default() -> (vfs: Self)
        ensures
            vfs.wf(),
            vfs@ == Map::<Seq<char>, FileEntryView>::empty(),
    {
        VirtualFileSystem::new()
    }
}

impl View for VirtualFileSystem {
    type V = Map<Seq<char>, FileEntryView>;

    closed spec fn view(&self) -> Map<Seq<char>, FileEntryView> {
        self.entries@.map_values(|e: FileEntry| e@)
    }
}

impl VirtualFileSystem {
    /// The index is consistent and every key is a normalized path.
    pub closed spec fn wf(&self) -> bool {
        &&& lists(names(self.paths@), self.entries@.dom())
        &&& forall|k: Seq<char>| self.entries@.contains_key(k) ==> is_normalized(k)
    }

    /// Every key of a well-formed index is a normalized path.
    pub proof fn lemma_keys_normalized(self)
        requires
            self.wf(),
        ensures
            forall|k: Seq<char>| self@.contains_key(k) ==> is_normalized(k),
    {
    }

    /// An empty index.
    pub fn new() -> (vfs: Self)
        ensures
            vfs.wf(),
            vfs@ == Map::<Seq<char>, FileEntryView>::empty(),
    {
        let vfs = VirtualFileSystem { entries: StringHashMap::new(), paths: Vec::new() };
        vfs
    }

    /// Records `entry` under the normal form of `path`, in place of what
    /// was there.
    pub fn add_entry(&mut self, path: String, entry: FileEntry)
        requires
            old(self).wf(),
        ensures
            final(self).wf(),
            final(self)@ == old(self)@.insert(normalize(path@), entry@),
    {
        let key = normalize_path(path.as_str());
        let ghost before = names(self.paths@);
        if !self.entries.contains_key(key.as_str()) {
            self.paths.push(key.clone());
            proof {
                assert(names(self.paths@) =~= before.push(key@));
            }
        }
        let ghost keys = names(self.paths@);
        self.entries.insert(key, entry);
        proof {
            assert forall|k: Seq<char>| self.entries@.dom().contains(k) implies keys.contains(
                k,
            ) by {
                if k == key@ {
                    if !old(self).entries@.contains_key(k) {
                        assert(keys[keys.len() - 1] == k);
                    }
                } else {
                    let i = choose|i: int| 0 <= i < before.len() && before[i] == k;
                    assert(keys[i] == k);
                }
            }
        }
    }

    /// The entry recorded under the normal form of `path`, if there is one.
    pub fn get_entry(&self, path: &str) -> (found: Option<&FileEntry>)
        ensures
            match found {
                Some(entry) => self@.contains_key(normalize(path@)) && entry@ == self@[normalize(
                    path@,
                )],
                None => !self@.contains_key(normalize(path@)),
            },
    {
        let key = normalize_path(path);
        self.entries.get(key.as_str())
    }

    /// Removes what is recorded under the normal form of `path`.
    pub fn delete_entry(&mut self, path: &str)
        requires
            old(self).wf(),
        ensures
            final(self).wf(),
            final(self)@ == old(self)@.remove(normalize(path@)),
    {
        let key = normalize_path(path);
        if self.entries.contains_key(key.as_str()) {
            self.remove_key(key.as_str());
        }
    }

    /// Removes the key `key`, which the index holds.
    fn remove_key(&mut self, key: &str)
        requires
            old(self).wf(),
            old(self).entries@.contains_key(key@),
        ensures
            final(self).wf(),
            final(self).entries@ == old(self).entries@.remove(key@),
            final(self)@ == old(self)@.remove(key@),
    {
        let ghost before = names(self.paths@);
        self.entries.remove(key);
        let at = position_of(&self.paths, key);
        match at {
            Some(i) => {
                self.paths.swap_remove(i);
                proof {
                    lemma_lists_swap_remove(before, old(self).entries@.dom(), i as int);
                    assert(names(self.paths@) =~= before.update(i as int, before.last()).drop_last());
                }
            },
            None => {},
        }
    }

    /// Removes everything that lies under the directory `dir`. The entry of
    /// the directory itself stays, and so does all that lies beside it.
    pub fn clear_directory(&mut self, dir: &str)
        requires
            old(self).wf(),
        ensures
            final(self).wf(),
            final(self)@ == without_subtree(old(self)@, normalize(dir@)),
    {
        let mut prefix = normalize_path(dir);
        prefix.append("/");
        proof {
            reveal_strlit("/");
        }
        let ghost start = self.entries@;
        let ghost d = normalize(dir@);
        let mut i: usize = 0;
        while i < self.paths.len()
            invariant
                i <= self.paths.len(),
                prefix@ == d.push(sep()),
                lists(names(self.paths@), self.entries@.dom()),
                forall|k: Seq<char>| #[trigger]
                    self.entries@.contains_key(k) ==> start.contains_key(k) && self.entries@[k]
                        == start[k],
                forall|k: Seq<char>|
                    start.contains_key(k) && !is_under(k, d) ==> #[trigger] self.entries@.contains_key(
                        k,
                    ),
                forall|j: int| 0 <= j < i ==> !is_under(#[trigger] names(self.paths@)[j], d),
            decreases self.paths.len() - i,
        {
            let ghost keys = names(self.paths@);
            let ghost dom = self.entries@.dom();
            if starts_with(self.paths[i].as_str(), prefix.as_str()) {
                let key = self.paths.swap_remove(i);
                self.entries.remove(key.as_str());
                proof {
                    lemma_lists_swap_remove(keys, dom, i as int);
                    assert(names(self.paths@) =~= keys.update(i as int, keys.last()).drop_last());
                }
            } else {
                i = i + 1;
            }
        }
    }

    /// The whole index as a list of paths with their entries, each path
    /// once.
    pub fn get_entries(&self) -> (list: Vec<(String, FileEntry)>)
        requires
            self.wf(),
        ensures
            forall|i: int|
                0 <= i < list.len() ==> self@.contains_key(#[trigger] list[i].0@) && self@[list[i].0@]
                    == list[i].1@,
            forall|k: Seq<char>|
                self@.contains_key(k) ==> exists|i: int| 0 <= i < list.len() && #[trigger] list[i].0@ == k,
            forall|i: int, j: int| 0 <= i < j < list.len() ==> list[i].0@ != list[j].0@,
    {
        let mut list: Vec<(String, FileEntry)> = Vec::new();
        let mut i: usize = 0;
        let ghost keys = names(self.paths@);
        while i < self.paths.len()
            invariant
                i <= self.paths.len(),
                self.wf(),
                keys == names(self.paths@),
                list.len() == i,
                forall|j: int| 0 <= j < i ==> (#[trigger] list[j]).0@ == keys[j],
                forall|j: int|
                    0 <= j < i ==> self@.contains_key(keys[j]) && self@[keys[j]] == (#[trigger] list[j]).1@,
            decreases self.paths.len() - i,
        {
            assert(self.entries@.dom().contains(keys[i as int]));
            match self.entries.get(self.paths[i].as_str()) {
                Some(entry) => {
                    list.push((self.paths[i].clone(), entry.duplicate()));
                },
                None => {},
            }
            i = i + 1;
        }
        proof {
            assert forall|k: Seq<char>| self@.contains_key(k) implies exists|i: int|
                0 <= i < list.len() && #[trigger] list[i].0@ == k by {
                let j = choose|j: int| 0 <= j < keys.len() && keys[j] == k;
                assert(list[j].0@ == k);
            }
        }
        list
    }

    /// Builds the directory tree over the index.
    pub fn get_directory_tree(&self) -> (tree: DirectoryTree)
        requires
            self.wf(),
        ensures
            tree@.wf(),
            tree@.paths() == tree_paths_of(self@),
    {
        let mut tree = DirectoryTree::new();
        let ghost keys = names(self.paths@);
        let ghost index = self@;
        let mut i: usize = 0;
        proof {
            assert forall|s: Steps| s.len() == 0 implies s =~= Seq::<Seq<char>>::empty() by {}
        }
        while i < self.paths.len()
            invariant
                i <= self.paths.len(),
                self.wf(),
                keys == names(self.paths@),
                index == self@,
                tree@.wf(),
                tree@.paths() == tree_paths_of(part(index, keys, i as int)),
            decreases self.paths.len() - i,
        {
            match self.entries.get(self.paths[i].as_str()) {
                Some(entry) => {
                    tree.set_path(self.paths[i].as_str(), entry.is_directory());
                    proof {
                        let key = keys[i as int];
                        let done = part(index, keys, i as int);
                        lemma_tree_paths_insert(done, key, index[key]);
                    }
                },
                None => {},
            }
            i = i + 1;
        }
        tree
    }

    /// Applies one archive entry of layer `layer_index`: an opaque marker
    /// empties its directory, a whiteout deletes the path it names, and
    /// any other entry is recorded under its path if its kind is one that
    /// the index records.
    pub fn ingest_entry(&mut self, layer_index: usize, entry: &ArchiveEntry)
        requires
            old(self).wf(),
        ensures
            final(self).wf(),
            final(self)@ == apply(old(self)@, action_of(layer_index, entry@)),
    {
        let parts = split_path(entry.path.as_str());
        let n = parts.len();
        if n > 0 {
            let name = parts[n - 1].as_str();
            proof {
                lemma_components_valid(entry.path@);
                let front = components(entry.path@).drop_last();
                lemma_join_normalized(front);
            }
            if str_eq(name, ".wh..wh..opq") {
                let dir = join_prefix(&parts, n - 1);
                self.clear_directory(dir.as_str());
                return ;
            }
            if starts_with(name, ".wh.") {
                proof {
                    reveal_strlit(".wh.");
                    reveal_strlit("/");
                }
                let len = name.unicode_len();
                let rest = name.substring_char(4, len);
                let mut target = join_prefix(&parts, n - 1);
                target.append("/");
                target.append(rest);
                proof {
                    assert(target@ =~= parent_of(entry.path@).push(sep()) + name@.skip(4));
                }
                self.delete_entry(target.as_str());
                return ;
            }
        }
        match entry.kind {
            EntryKind::Regular => {
                self.add_entry(
                    entry.path.clone(),
                    FileEntry::File { size: entry.size, layer_index },
                );
            },
            EntryKind::Directory => {
                self.add_entry(entry.path.clone(), FileEntry::Directory { layer_index });
            },
            EntryKind::Symlink | EntryKind::Link => {
                match &entry.link_name {
                    Some(target) => {
                        self.add_entry(
                            entry.path.clone(),
                            FileEntry::Symlink { target: target.clone(), layer_index },
                        );
                    },
                    None => {},
                }
            },
            EntryKind::Other => {},
        }
    }

    /// Applies the entries of layer `layer_index` in order. Layers are to
    /// be ingested from the base upwards: a later call overrides what an
    /// earlier one recorded.
    pub fn ingest_layer(&mut self, layer_index: usize, entries: &Vec<ArchiveEntry>)
        requires
            old(self).wf(),
        ensures
            final(self).wf(),
            final(self)@ == ingest(old(self)@, layer_index, entry_views(entries@)),
    {
        let ghost all = entry_views(entries@);
        let mut i: usize = 0;
        while i < entries.len()
            invariant
                i <= entries.len(),
                self.wf(),
                all == entry_views(entries@),
                self@ == ingest(old(self)@, layer_index, all.take(i as int)),
            decreases entries.len() - i,
        {
            proof {
                assert(all.take(i + 1).drop_last() =~= all.take(i as int));
            }
            self.ingest_entry(layer_index, &entries[i]);
            i = i + 1;
        }
        proof {
            assert(all.take(i as int) =~= all);
        }
    }
}

} // verus!
