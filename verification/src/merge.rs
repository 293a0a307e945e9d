//! The layer merge, as mathematics: what one archive entry does to the
//! index, what a layer does, what a stack of layers does, and the laws
//! that follow.
//!
//! Layers are applied from the base upwards and the entries of a layer in
//! the order of its archive. An entry named `.wh..wh..opq` empties the
//! directory it stands in; an entry whose name begins with `.wh.` deletes
//! the path beside it that the rest of the name gives; any other entry is
//! recorded under its path, in place of what was there.

use vstd::prelude::*;
use crate::archive::{ArchiveEntryView, EntryKind};
use crate::path::{components, join, normalize, sep};
use crate::vfs::{is_under, without_subtree, FileEntryView};

verus! {

/// The index as a mathematical map.
pub type Index = Map<Seq<char>, FileEntryView>;

/// The name of the marker that empties its directory.
pub open spec fn opaque_name() -> Seq<char> {
    ".wh..wh..opq"@
}

/// The prefix of the names that delete a path.
pub open spec fn whiteout_prefix() -> Seq<char> {
    ".wh."@
}

/// What one archive entry asks of the index.
pub enum Action {
    /// Remove all that lies under the directory.
    Clear(Seq<char>),
    /// Remove the path.
    Delete(Seq<char>),
    /// Record the entry under the path.
    Put(Seq<char>, FileEntryView),
    /// Leave the index as it is.
    Nothing,
}

/// The directory that the last component of `path` stands in.
pub open spec fn parent_of(path: Seq<char>) -> Seq<char> {
    join(components(path).drop_last())
}

/// The path that a whiteout named `name` in the directory `dir` deletes:
/// the name without its prefix, beside the whiteout.
pub open spec fn whiteout_target(dir: Seq<char>, name: Seq<char>) -> Seq<char> {
    normalize(dir.push(sep()) + name.skip(whiteout_prefix().len() as int))
}

/// What the index records for an entry of layer `layer`, if anything.
pub open spec fn recorded(layer: usize, entry: ArchiveEntryView) -> Option<FileEntryView> {
    match entry.kind {
        EntryKind::Regular => Some(FileEntryView::File { size: entry.size, layer_index: layer }),
        EntryKind::Directory => Some(FileEntryView::Directory { layer_index: layer }),
        EntryKind::Symlink | EntryKind::Link => match entry.link_name {
            Some(target) => Some(FileEntryView::Symlink { target, layer_index: layer }),
            None => None,
        },
        EntryKind::Other => None,
    }
}

/// What the entry `entry` of layer `layer` asks of the index.
pub open spec fn action_of(layer: usize, entry: ArchiveEntryView) -> Action {
    let parts = components(entry.path);
    if parts.len() > 0 && parts.last() == opaque_name() {
        Action::Clear(parent_of(entry.path))
    } else if parts.len() > 0 && whiteout_prefix().is_prefix_of(parts.last()) {
        Action::Delete(whiteout_target(parent_of(entry.path), parts.last()))
    } else {
        match recorded(layer, entry) {
            Some(file) => Action::Put(normalize(entry.path), file),
            None => Action::Nothing,
        }
    }
}

/// The index after an action.
pub open spec fn apply(index: Index, action: Action) -> Index {
    match action {
        Action::Clear(dir) => without_subtree(index, dir),
        Action::Delete(path) => index.remove(path),
        Action::Put(path, file) => index.insert(path, file),
        Action::Nothing => index,
    }
}

/// The index after the entries of layer `layer`, taken in order.
pub open spec fn ingest(index: Index, layer: usize, entries: Seq<ArchiveEntryView>) -> Index
    decreases entries.len(),
{
    if entries.len() == 0 {
        index
    } else {
        apply(ingest(index, layer, entries.drop_last()), action_of(layer, entries.last()))
    }
}

/// The index after a stack of layers, the base first: layer `i` of the
/// stack is ingested as layer `i`.
pub open spec fn merge(index: Index, layers: Seq<Seq<ArchiveEntryView>>) -> Index
    decreases layers.len(),
{
    if layers.len() == 0 {
        index
    } else {
        ingest(merge(index, layers.drop_last()), (layers.len() - 1) as usize, layers.last())
    }
}

/// What the index holds for a path.
pub open spec fn lookup(index: Index, path: Seq<char>) -> Option<FileEntryView> {
    if index.contains_key(path) {
        Some(index[path])
    } else {
        None
    }
}

/// An action touches a path when it settles what the index holds for it.
pub open spec fn touches(action: Action, path: Seq<char>) -> bool {
    match action {
        Action::Clear(dir) => is_under(path, dir),
        Action::Delete(target) => target == path,
        Action::Put(target, _) => target == path,
        Action::Nothing => false,
    }
}

/// What the index holds, after an action, for a path that the action
/// touches.
pub open spec fn outcome(action: Action) -> Option<FileEntryView> {
    match action {
        Action::Put(_, file) => Some(file),
        _ => None,
    }
}

/// Entry `i` of the layer touches `path`.
pub open spec fn entry_touches(
    layer: usize,
    entries: Seq<ArchiveEntryView>,
    i: int,
    path: Seq<char>,
) -> bool {
    touches(action_of(layer, entries[i]), path)
}

/// Entry `i` of layer `layer` of the stack touches `path`.
pub open spec fn stack_touches(
    layers: Seq<Seq<ArchiveEntryView>>,
    layer: int,
    i: int,
    path: Seq<char>,
) -> bool {
    touches(action_of(layer as usize, layers[layer][i]), path)
}

/// The position of the last entry of the layer that touches `path`, or -1
/// where none does.
pub open spec fn last_touch(layer: usize, entries: Seq<ArchiveEntryView>, path: Seq<char>) -> int
    decreases entries.len(),
{
    if entries.len() == 0 {
        -1
    } else if touches(action_of(layer, entries.last()), path) {
        entries.len() - 1
    } else {
        last_touch(layer, entries.drop_last(), path)
    }
}

/// An action settles the paths it touches and leaves the others alone.
pub proof fn lemma_apply(index: Index, action: Action, path: Seq<char>)
    ensures
        lookup(apply(index, action), path) == if touches(action, path) {
            outcome(action)
        } else {
            lookup(index, path)
        },
{
}

/// `last_touch` is the position of an entry that touches the path and
/// that no touching entry follows, or -1 exactly when none touches it.
pub proof fn lemma_last_touch(layer: usize, entries: Seq<ArchiveEntryView>, path: Seq<char>)
    ensures
        -1 <= last_touch(layer, entries, path) < entries.len(),
        last_touch(layer, entries, path) >= 0 ==> entry_touches(
            layer,
            entries,
            last_touch(layer, entries, path),
            path,
        ),
        forall|j: int|
            last_touch(layer, entries, path) < j < entries.len() ==> !#[trigger] entry_touches(
                layer,
                entries,
                j,
                path,
            ),
    decreases entries.len(),
{
    if entries.len() > 0 {
        let front = entries.drop_last();
        lemma_last_touch(layer, front, path);
        assert forall|j: int| last_touch(layer, entries, path) < j < entries.len() implies !#[trigger] entry_touches(
            layer,
            entries,
            j,
            path,
        ) by {
            if j < front.len() {
                assert(!entry_touches(layer, front, j, path));
            }
        }
    }
}

/// Within one layer the last entry that touches a path decides what the
/// index holds for it; a path that no entry touches keeps what it had.
pub proof fn lemma_ingest_lookup(
    index: Index,
    layer: usize,
    entries: Seq<ArchiveEntryView>,
    path: Seq<char>,
)
    ensures
        lookup(ingest(index, layer, entries), path) == if last_touch(layer, entries, path) < 0 {
            lookup(index, path)
        } else {
            outcome(action_of(layer, entries[last_touch(layer, entries, path)]))
        },
    decreases entries.len(),
{
    if entries.len() > 0 {
        let front = entries.drop_last();
        lemma_ingest_lookup(index, layer, front, path);
        lemma_last_touch(layer, front, path);
    }
}

/// Last write wins. Take an entry of some layer that touches a path, such
/// that no later entry of that layer and no entry of a higher layer touches
/// it. Then that entry decides what the merged index holds for the path:
/// the file it records, marked with its layer, or nothing where it is a
/// whiteout or an opaque marker.
pub proof fn lemma_last_touch_decides(
    index: Index,
    layers: Seq<Seq<ArchiveEntryView>>,
    path: Seq<char>,
    layer: int,
    i: int,
)
    requires
        layers.len() <= usize::MAX,
        0 <= layer < layers.len(),
        0 <= i < layers[layer].len(),
        stack_touches(layers, layer, i, path),
        forall|j: int| i < j < layers[layer].len() ==> !#[trigger] stack_touches(layers, layer, j, path),
        forall|m: int, j: int|
            layer < m < layers.len() && 0 <= j < layers[m].len() ==> !#[trigger] stack_touches(
                layers,
                m,
                j,
                path,
            ),
    ensures
        lookup(merge(index, layers), path) == outcome(action_of(layer as usize, layers[layer][i])),
        lookup(merge(index, layers), path) matches Some(file) ==> file.layer() == layer,
    decreases layers.len(),
{
    let top = layers.len() - 1;
    let below = merge(index, layers.drop_last());
    lemma_ingest_lookup(below, top as usize, layers.last(), path);
    lemma_last_touch(top as usize, layers.last(), path);
    let last = last_touch(top as usize, layers.last(), path);
    if layer == top {
        if last < i {
            assert(!entry_touches(top as usize, layers.last(), i, path));
        }
        if last > i {
            assert(stack_touches(layers, top, last, path));
        }
    } else {
        if last >= 0 {
            assert(stack_touches(layers, top, last, path));
        }
        let front = layers.drop_last();
        assert forall|j: int| i < j < front[layer].len() implies !#[trigger] stack_touches(
            front,
            layer,
            j,
            path,
        ) by {
            assert(!stack_touches(layers, layer, j, path));
        }
        assert forall|m: int, j: int|
            layer < m < front.len() && 0 <= j < front[m].len() implies !#[trigger] stack_touches(
            front,
            m,
            j,
            path,
        ) by {
            assert(!stack_touches(layers, m, j, path));
        }
        lemma_last_touch_decides(index, front, path, layer, i);
    }
}

/// A path that no entry of any layer touches keeps what the index held
/// for it before the merge.
pub proof fn lemma_untouched_path_kept(
    index: Index,
    layers: Seq<Seq<ArchiveEntryView>>,
    path: Seq<char>,
)
    requires
        layers.len() <= usize::MAX,
        forall|m: int, j: int|
            0 <= m < layers.len() && 0 <= j < layers[m].len() ==> !#[trigger] stack_touches(
                layers,
                m,
                j,
                path,
            ),
    ensures
        lookup(merge(index, layers), path) == lookup(index, path),
    decreases layers.len(),
{
    if layers.len() > 0 {
        let top = layers.len() - 1;
        let below = merge(index, layers.drop_last());
        lemma_ingest_lookup(below, top as usize, layers.last(), path);
        lemma_last_touch(top as usize, layers.last(), path);
        let last = last_touch(top as usize, layers.last(), path);
        if last >= 0 {
            assert(stack_touches(layers, top, last, path));
        }
        let front = layers.drop_last();
        assert forall|m: int, j: int|
            0 <= m < front.len() && 0 <= j < front[m].len() implies !#[trigger] stack_touches(
            front,
            m,
            j,
            path,
        ) by {
            assert(!stack_touches(layers, m, j, path));
        }
        lemma_untouched_path_kept(index, front, path);
    }
}

/// Two indexes that hold the same for every path are the same index.
proof fn lemma_same_lookups(a: Index, b: Index)
    requires
        forall|path: Seq<char>| lookup(a, path) == lookup(b, path),
    ensures
        a == b,
{
    assert forall|path: Seq<char>| a.contains_key(path) == b.contains_key(path) by {
        assert(lookup(a, path) == lookup(b, path));
    }
    assert forall|path: Seq<char>| a.contains_key(path) implies a[path] == b[path] by {
        assert(lookup(a, path) == lookup(b, path));
    }
}

/// Ingesting a layer a second time, straight after the first, changes
/// nothing.
pub proof fn lemma_ingest_idempotent(index: Index, layer: usize, entries: Seq<ArchiveEntryView>)
    ensures
        ingest(ingest(index, layer, entries), layer, entries) == ingest(index, layer, entries),
{
    let once = ingest(index, layer, entries);
    let twice = ingest(once, layer, entries);
    assert forall|path: Seq<char>| lookup(twice, path) == lookup(once, path) by {
        lemma_ingest_lookup(index, layer, entries, path);
        lemma_ingest_lookup(once, layer, entries, path);
    }
    lemma_same_lookups(twice, once);
}

/// An opaque marker removes what lies under its directory and nothing
/// else: every other path keeps its entry, the directory's own among
/// them.
pub proof fn lemma_opaque_marker(index: Index, layer: usize, marker: ArchiveEntryView)
    requires
        components(marker.path).len() > 0,
        components(marker.path).last() == opaque_name(),
    ensures
        forall|path: Seq<char>|
            lookup(apply(index, action_of(layer, marker)), path) == if is_under(
                path,
                parent_of(marker.path),
            ) {
                None
            } else {
                lookup(index, path)
            },
        !is_under(parent_of(marker.path), parent_of(marker.path)),
{
}

/// An index whose entries all come from layers below `bound` stays such
/// when a layer below `bound` is ingested.
pub proof fn lemma_ingest_layer_bound(
    index: Index,
    layer: usize,
    entries: Seq<ArchiveEntryView>,
    bound: int,
)
    requires
        layer < bound,
        forall|path: Seq<char>| index.contains_key(path) ==> (#[trigger] index[path]).layer() < bound,
    ensures
        forall|path: Seq<char>|
            ingest(index, layer, entries).contains_key(path) ==> (#[trigger] ingest(
                index,
                layer,
                entries,
            )[path]).layer() < bound,
    decreases entries.len(),
{
    if entries.len() > 0 {
        let below = ingest(index, layer, entries.drop_last());
        let action = action_of(layer, entries.last());
        lemma_ingest_layer_bound(index, layer, entries.drop_last(), bound);
        assert forall|path: Seq<char>| apply(below, action).contains_key(path) implies (#[trigger] apply(
            below,
            action,
        )[path]).layer() < bound by {
            if !touches(action, path) {
                assert(below[path].layer() < bound);
            }
        }
    }
}

} // verus!
