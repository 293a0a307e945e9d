//! Figures on a merged index: how many entries of each kind it has, and
//! how many bytes its files hold.

use vstd::prelude::*;
use crate::vfs::{FileEntry, FileEntryView};

verus! {

/// The figures on an index.
#[derive(Clone, Copy, Debug, PartialEq, Eq, Structural)]
pub struct Statistics {
    /// The number of regular files.
    pub file_count: usize,
    /// The number of directories.
    pub dir_count: usize,
    /// The number of links.
    pub symlink_count: usize,
    /// The sizes of the regular files, added up.
    pub total_size: u128,
}

/// The entries of a list.
pub open spec fn entries_of(list: Seq<(String, FileEntry)>) -> Seq<FileEntryView> {
    Seq::new(list.len(), |i: int| list[i].1@)
}

/// The number of regular files among the entries.
pub open spec fn files_in(entries: Seq<FileEntryView>) -> int
    decreases entries.len(),
{
    if entries.len() == 0 {
        0
    } else {
        files_in(entries.drop_last()) + if entries.last() is File {
            1int
        } else {
            0
        }
    }
}

/// The number of directories among the entries.
pub open spec fn dirs_in(entries: Seq<FileEntryView>) -> int
    decreases entries.len(),
{
    if entries.len() == 0 {
        0
    } else {
        dirs_in(entries.drop_last()) + if entries.last() is Directory {
            1int
        } else {
            0
        }
    }
}

/// The number of links among the entries.
pub open spec fn links_in(entries: Seq<FileEntryView>) -> int
    decreases entries.len(),
{
    if entries.len() == 0 {
        0
    } else {
        links_in(entries.drop_last()) + if entries.last() is Symlink {
            1int
        } else {
            0
        }
    }
}

/// The sizes of the regular files among the entries, added up.
pub open spec fn bytes_in(entries: Seq<FileEntryView>) -> int
    decreases entries.len(),
{
    if entries.len() == 0 {
        0
    } else {
        bytes_in(entries.drop_last()) + match entries.last() {
            FileEntryView::File { size, .. } => size as int,
            _ => 0,
        }
    }
}

/// The counts add up to the number of entries, and the bytes cannot be
/// more than that many files of the greatest size hold.
pub proof fn lemma_figures(entries: Seq<FileEntryView>)
    ensures
        0 <= files_in(entries),
        0 <= dirs_in(entries),
        0 <= links_in(entries),
        files_in(entries) + dirs_in(entries) + links_in(entries) == entries.len(),
        0 <= bytes_in(entries) <= entries.len() * u64::MAX,
    decreases entries.len(),
{
    if entries.len() > 0 {
        lemma_figures(entries.drop_last());
    }
}

/// Counts the entries of a list by kind and adds up the sizes of its
/// files.
pub fn count_entries(list: &Vec<(String, FileEntry)>) -> (figures: Statistics)
    ensures
        figures.file_count == files_in(entries_of(list@)),
        figures.dir_count == dirs_in(entries_of(list@)),
        figures.symlink_count == links_in(entries_of(list@)),
        figures.total_size == bytes_in(entries_of(list@)),
{
    let ghost all = entries_of(list@);
    let mut figures = Statistics { file_count: 0, dir_count: 0, symlink_count: 0, total_size: 0 };
    let mut i: usize = 0;
    while i < list.len()
        invariant
            i <= list.len(),
            all == entries_of(list@),
            figures.file_count == files_in(all.take(i as int)),
            figures.dir_count == dirs_in(all.take(i as int)),
            figures.symlink_count == links_in(all.take(i as int)),
            figures.total_size == bytes_in(all.take(i as int)),
        decreases list.len() - i,
    {
        proof {
            assert(all.take(i + 1).drop_last() =~= all.take(i as int));
            lemma_figures(all.take(i as int));
        }
        match &list[i].1 {
            FileEntry::File { size, .. } => {
                figures.file_count = figures.file_count + 1;
                figures.total_size = figures.total_size + *size as u128;
            },
            FileEntry::Directory { .. } => {
                figures.dir_count = figures.dir_count + 1;
            },
            FileEntry::Symlink { .. } => {
                figures.symlink_count = figures.symlink_count + 1;
            },
        }
        i = i + 1;
    }
    proof {
        assert(all.take(i as int) =~= all);
    }
    figures
}

} // verus!
