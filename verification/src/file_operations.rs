//! Finding the note directories: the directories that may receive images.
//!
//! A directory is a note directory when it holds exactly one entry named
//! `img` that is itself a directory.

use crate::entry::{DirEntry, EntryKind};
use crate::file_set::paths_of;
use vstd::prelude::*;
use vstd::string::*;

verus! {

/// An entry below the notes root, with its own listing where it is a
/// directory that could be read.
#[derive(Clone, Debug)]
pub struct NoteCandidate {
    /// The entry as the listing of the notes root gave it.
    pub entry: DirEntry,
    /// What the entry holds; nothing when that could not be listed.
    pub listing: Option<Vec<DirEntry>>,
}

/// `entry` is a directory named `img`.
pub open spec fn is_img_dir(entry: DirEntry) -> bool {
    entry.name@ == seq!['i', 'm', 'g'] && entry.is_dir()
}

/// The entries of a listing that are directories named `img`.
pub open spec fn img_dirs(entries: Seq<DirEntry>) -> Seq<DirEntry> {
    entries.filter(|entry: DirEntry| is_img_dir(entry))
}

/// The listing holds exactly one directory named `img`.
pub open spec fn has_img_dir(entries: Seq<DirEntry>) -> bool {
    img_dirs(entries).len() == 1
}

/// `candidate` is a note directory: a directory whose listing could be read
/// and holds exactly one directory named `img`.
pub open spec fn is_note_dir(candidate: NoteCandidate) -> bool {
    &&& candidate.entry.is_dir()
    &&& candidate.listing matches Some(listing)
    &&& has_img_dir(listing@)
}

/// The paths of the note directories among `candidates`, in their order.
pub open spec fn note_dirs(candidates: Seq<NoteCandidate>) -> Seq<Seq<char>> {
    candidates.filter(|candidate: NoteCandidate| is_note_dir(candidate)).map_values(
        |candidate: NoteCandidate| candidate.entry.path@,
    )
}

/// A directory without a directory named `img` is no note directory. A
/// file named `img` does not count, nor a directory of another name.
pub proof fn lemma_without_img_dir_is_excluded(entries: Seq<DirEntry>)
    requires
        forall|i: int| 0 <= i < entries.len() ==> !is_img_dir(#[trigger] entries[i]),
    ensures
        !has_img_dir(entries),
        img_dirs(entries).len() == 0,
    decreases entries.len(),
{
    reveal(Seq::filter);
    if entries.len() > 0 {
        lemma_without_img_dir_is_excluded(entries.drop_last());
    }
}

/// A directory with exactly one directory named `img` is a note directory,
/// whatever else it holds.
pub proof fn lemma_single_img_dir_is_included(entries: Seq<DirEntry>, i: int)
    requires
        0 <= i < entries.len(),
        is_img_dir(entries[i]),
        forall|j: int| 0 <= j < entries.len() && j != i ==> !is_img_dir(#[trigger] entries[j]),
    ensures
        has_img_dir(entries),
    decreases entries.len(),
{
    reveal(Seq::filter);
    let rest = entries.drop_last();
    if i == entries.len() - 1 {
        lemma_without_img_dir_is_excluded(rest);
    } else {
        lemma_single_img_dir_is_included(rest, i);
    }
}

/// A directory with more than one directory named `img` is no note
/// directory.
pub proof fn lemma_second_img_dir_excludes(entries: Seq<DirEntry>, i: int, j: int)
    requires
        0 <= i < j < entries.len(),
        is_img_dir(entries[i]),
        is_img_dir(entries[j]),
    ensures
        !has_img_dir(entries),
        img_dirs(entries).len() >= 2,
    decreases entries.len(),
{
    reveal(Seq::filter);
    let rest = entries.drop_last();
    if j == entries.len() - 1 {
        lemma_img_dir_counts(rest, i);
    } else {
        lemma_second_img_dir_excludes(rest, i, j);
    }
}

/// A listing with a directory named `img` has at least one.
proof fn lemma_img_dir_counts(entries: Seq<DirEntry>, i: int)
    requires
        0 <= i < entries.len(),
        is_img_dir(entries[i]),
    ensures
        img_dirs(entries).len() >= 1,
    decreases entries.len(),
{
    reveal(Seq::filter);
    if i < entries.len() - 1 {
        lemma_img_dir_counts(entries.drop_last(), i);
    }
}

/// The discovery gives exactly the note directories: a path is among the
/// result if and only if it is the path of a candidate that is a note
/// directory.
pub proof fn lemma_note_dirs_are_the_eligible(candidates: Seq<NoteCandidate>, path: Seq<char>)
    ensures
        note_dirs(candidates).contains(path) <==> exists|i: int|
            0 <= i < candidates.len() && is_note_dir(#[trigger] candidates[i])
                && candidates[i].entry.path@ == path,
    decreases candidates.len(),
{
    reveal(Seq::filter);
    if candidates.len() == 0 {
        assert(note_dirs(candidates) =~= Seq::<Seq<char>>::empty());
    } else {
        let rest = candidates.drop_last();
        let last = candidates.last();
        lemma_note_dirs_are_the_eligible(rest, path);
        let before = note_dirs(rest);
        if is_note_dir(last) {
            assert(note_dirs(candidates) =~= before.push(last.entry.path@));
        } else {
            assert(note_dirs(candidates) =~= before);
        }
        if note_dirs(candidates).contains(path) {
            let k = choose|k: int|
                0 <= k < note_dirs(candidates).len() && note_dirs(candidates)[k] == path;
            if k < before.len() {
                assert(before[k] == path);
                assert(before.contains(path));
                let i = choose|i: int|
                    0 <= i < rest.len() && is_note_dir(#[trigger] rest[i]) && rest[i].entry.path@
                        == path;
                assert(candidates[i] == rest[i]);
            } else {
                assert(is_note_dir(candidates[candidates.len() - 1]));
            }
        }
        if exists|i: int|
            0 <= i < candidates.len() && is_note_dir(#[trigger] candidates[i])
                && candidates[i].entry.path@ == path {
            let i = choose|i: int|
                0 <= i < candidates.len() && is_note_dir(#[trigger] candidates[i])
                    && candidates[i].entry.path@ == path;
            if i < rest.len() {
                assert(rest[i] == candidates[i]);
                assert(before.contains(path));
                let k = choose|k: int| 0 <= k < before.len() && before[k] == path;
                assert(note_dirs(candidates)[k] == path);
            } else {
                assert(note_dirs(candidates)[before.len() as int] == path);
            }
        }
    }
}

impl NoteCandidate {
    /// A candidate from the entry and what it holds.
    pub fn new(entry: DirEntry, listing: Option<Vec<DirEntry>>) -> (candidate: NoteCandidate)
        ensures
            candidate.entry == entry,
            candidate.listing == listing,
    {
        NoteCandidate { entry, listing }
    }
}

/// Whether a directory with the listing `entries` holds exactly one
/// directory named `img`.
pub fn contains_img_dir(entries: &Vec<DirEntry>) -> (found: bool)
    ensures
        found == has_img_dir(entries@),
{
    let img = String::from_str("img");
    proof {
        reveal_strlit("img");
        assert(img@ =~= seq!['i', 'm', 'g']);
    }
    let ghost wanted = |entry: DirEntry| is_img_dir(entry);
    let mut count: usize = 0;
    let mut i: usize = 0;
    proof {
        assert(entries@.take(0) =~= Seq::<DirEntry>::empty());
        reveal(Seq::filter);
    }
    while i < entries.len()
        invariant
            i <= entries.len(),
            count <= i,
            img@ == seq!['i', 'm', 'g'],
            wanted == |entry: DirEntry| is_img_dir(entry),
            count == entries@.take(i as int).filter(wanted).len(),
        decreases entries.len() - i,
    {
        let entry = &entries[i];
        let is_img = entry.name == img && matches!(entry.kind, EntryKind::Directory);
        proof {
            assert(is_img == is_img_dir(*entry));
            assert(entries@.take(i + 1) =~= entries@.take(i as int).push(*entry));
            entries@.take(i as int).lemma_filter_push(*entry, wanted);
        }
        if is_img {
            count += 1;
        }
        i += 1;
    }
    assert(entries@.take(i as int) =~= entries@);
    count == 1
}

/// The note directories among `candidates`, in their order.
pub fn get_note_dirs(candidates: &Vec<NoteCandidate>) -> (notes: Vec<String>)
    ensures
        paths_of(notes@) == note_dirs(candidates@),
{
    let ghost wanted = |candidate: NoteCandidate| is_note_dir(candidate);
    let ghost path = |candidate: NoteCandidate| candidate.entry.path@;
    let mut notes: Vec<String> = Vec::new();
    let mut i: usize = 0;
    proof {
        assert(candidates@.take(0) =~= Seq::<NoteCandidate>::empty());
        reveal(Seq::filter);
        assert(paths_of(notes@) =~= candidates@.take(0).filter(wanted).map_values(path));
    }
    while i < candidates.len()
        invariant
            i <= candidates.len(),
            wanted == |candidate: NoteCandidate| is_note_dir(candidate),
            path == |candidate: NoteCandidate| candidate.entry.path@,
            paths_of(notes@) == candidates@.take(i as int).filter(wanted).map_values(path),
        decreases candidates.len() - i,
    {
        let candidate = &candidates[i];
        let eligible = matches!(candidate.entry.kind, EntryKind::Directory) && match &candidate.listing {
            Some(listing) => contains_img_dir(listing),
            None => false,
        };
        proof {
            assert(eligible == is_note_dir(*candidate));
            assert(candidates@.take(i + 1) =~= candidates@.take(i as int).push(*candidate));
            candidates@.take(i as int).lemma_filter_push(*candidate, wanted);
        }
        if eligible {
            let ghost before = notes@;
            notes.push(candidate.entry.path.clone());
            assert(paths_of(notes@) =~= paths_of(before).push(candidate.entry.path@));
            assert(candidates@.take(i as int).filter(wanted).push(*candidate).map_values(path)
                =~= candidates@.take(i as int).filter(wanted).map_values(path).push(
                candidate.entry.path@,
            ));
        }
        i += 1;
    }
    assert(candidates@.take(i as int) =~= candidates@);
    notes
}

} // verus!
