//! The directory scanner: classifies the entries of single-level directory
//! reads into photographer sub-directories and recognized image files, and
//! selects a preview image per photographer.
//!
//! A listing is handed in as plain values: one entry per directory entry,
//! with its base name, full path, and what its metadata probe showed. An
//! entry whose metadata could not be read is skipped, never an error; the
//! only failure mode is a directory that could not be listed at all.

use vstd::prelude::*;
use crate::ext::is_image_file;
use crate::ext::is_image_name;

verus! {

/// One photographer: an immediate sub-directory of the scanned root, with
/// the preview image chosen from its own contents.
#[derive(Clone, Debug, PartialEq, Eq)]
pub struct Photographer {
    pub name: String,
    pub path: String,
    pub preview_image: Option<String>,
}

/// One recognized image file inside a scanned folder.
#[derive(Clone, Debug, PartialEq, Eq)]
pub struct ImageFile {
    pub name: String,
    pub path: String,
}

/// What a directory entry's metadata probe showed: a regular file, a
/// directory, or a failed probe (such an entry is silently skipped).
#[derive(Clone, Copy, Debug, PartialEq, Eq, Structural)]
pub enum EntryKind {
    File,
    Dir,
    Unreadable,
}

/// One entry of a single-level directory read.
#[derive(Clone, Debug)]
pub struct Entry {
    pub name: String,
    pub path: String,
    pub kind: EntryKind,
}

/// The outcome of listing one directory: its entries in enumeration order,
/// or the OS error text when it could not be opened.
#[derive(Clone, Debug)]
pub enum DirListing {
    Listed(Vec<Entry>),
    Unlistable(String),
}

/// An entry of the root directory together with the listing of its own
/// contents. The contents matter only when the entry is a directory.
#[derive(Clone, Debug)]
pub struct RootEntry {
    pub entry: Entry,
    pub contents: DirListing,
}

/// The outcome of listing the root directory, one level deep into each entry.
#[derive(Clone, Debug)]
pub enum RootListing {
    Listed(Vec<RootEntry>),
    Unlistable(String),
}

/// The scanner's single failure mode: a directory could not be listed; the
/// message carries the underlying OS error text.
#[derive(Clone, Debug, PartialEq, Eq)]
pub enum ScanError {
    DirectoryReadFailure(String),
}

/// An entry that counts as an image: a regular file whose name carries a
/// recognized extension.
pub open spec fn is_image_entry(e: Entry) -> bool {
    e.kind is File && is_image_name(e.name@)
}

/// The preview choice among a sequence of entries: the path of the first
/// image entry, if any.
pub open spec fn preview_of(entries: Seq<Entry>) -> Option<String>
    decreases entries.len(),
{
    if entries.len() == 0 {
        None
    } else if is_image_entry(entries[0]) {
        Some(entries[0].path)
    } else {
        preview_of(entries.drop_first())
    }
}

/// The preview for a sub-directory's listing; an unlistable one has none.
pub open spec fn listing_preview(l: DirListing) -> Option<String> {
    match l {
        DirListing::Listed(entries) => preview_of(entries@),
        DirListing::Unlistable(_) => None,
    }
}

/// The photographer record produced for one root entry.
pub open spec fn photographer_of(re: RootEntry) -> Photographer {
    Photographer {
        name: re.entry.name,
        path: re.entry.path,
        preview_image: listing_preview(re.contents),
    }
}

/// The photographer records for a sequence of root entries, in order: one
/// for each entry that is a directory.
pub open spec fn photographers_of(entries: Seq<RootEntry>) -> Seq<Photographer>
    decreases entries.len(),
{
    if entries.len() == 0 {
        Seq::empty()
    } else {
        photographers_of(entries.drop_last()) + (if entries.last().entry.kind is Dir {
            seq![photographer_of(entries.last())]
        } else {
            Seq::empty()
        })
    }
}

/// The image record produced for one entry.
pub open spec fn image_of(e: Entry) -> ImageFile {
    ImageFile { name: e.name, path: e.path }
}

/// The image records for a sequence of entries, in order: one for each image
/// entry.
pub open spec fn images_of(entries: Seq<Entry>) -> Seq<ImageFile>
    decreases entries.len(),
{
    if entries.len() == 0 {
        Seq::empty()
    } else {
        images_of(entries.drop_last()) + (if is_image_entry(entries.last()) {
            seq![image_of(entries.last())]
        } else {
            Seq::empty()
        })
    }
}

/// How many entries are directories.
pub open spec fn dir_count(entries: Seq<RootEntry>) -> nat
    decreases entries.len(),
{
    if entries.len() == 0 {
        0
    } else {
        dir_count(entries.drop_last()) + (if entries.last().entry.kind is Dir {
            1nat
        } else {
            0nat
        })
    }
}

/// How many entries are image entries.
pub open spec fn image_count(entries: Seq<Entry>) -> nat
    decreases entries.len(),
{
    if entries.len() == 0 {
        0
    } else {
        image_count(entries.drop_last()) + (if is_image_entry(entries.last()) {
            1nat
        } else {
            0nat
        })
    }
}

/// The preview image for one photographer sub-directory: the path of the
/// first entry that is a regular file with a recognized image extension.
/// None when the directory could not be listed, is empty, or holds no
/// recognized image file.
pub fn get_preview_image(dir: &DirListing) -> (r: Option<String>)
    ensures
        r == listing_preview(*dir),
{
    match dir {
        DirListing::Listed(entries) => {
            let n = entries.len();
            proof {
                assert(entries@.skip(0) =~= entries@);
            }
            for i in 0..n
                invariant
                    n == entries@.len(),
                    listing_preview(*dir) == preview_of(entries@),
                    preview_of(entries@) == preview_of(entries@.skip(i as int)),
            {
                proof {
                    assert(entries@.skip(i as int).drop_first() =~= entries@.skip(i as int + 1));
                    assert(entries@.skip(i as int)[0] == entries@[i as int]);
                }
                let e = &entries[i];
                if e.kind == EntryKind::File && is_image_file(e.name.as_str()) {
                    proof {
                        assert(is_image_entry(entries@[i as int]));
                        assert(preview_of(entries@.skip(i as int)) == Some(
                            entries@[i as int].path,
                        ));
                    }
                    return Some(e.path.clone());
                }
            }
            proof {
                assert(entries@.skip(n as int) =~= Seq::<Entry>::empty());
            }
            None
        },
        DirListing::Unlistable(_) => None,
    }
}

/// Lists the photographers: one record per root entry that is a directory,
/// in enumeration order, each with its preview. Fails exactly when the root
/// itself could not be listed; entries with unreadable metadata are skipped.
pub fn discover_photographers(root: &RootListing) -> (r: Result<
    Vec<Photographer>,
    ScanError,
>)
    ensures
        *root matches RootListing::Listed(entries) ==> r matches Ok(ps)
            && ps@ == photographers_of(entries@) && ps@.len() == dir_count(entries@),
        *root matches RootListing::Unlistable(msg) ==> r == Err::<Vec<Photographer>, ScanError>(
            ScanError::DirectoryReadFailure(msg),
        ),
{
    match root {
        RootListing::Listed(entries) => {
            let n = entries.len();
            let mut photographers: Vec<Photographer> = Vec::new();
            for i in 0..n
                invariant
                    n == entries@.len(),
                    photographers@ == photographers_of(entries@.take(i as int)),
                    photographers@.len() == dir_count(entries@.take(i as int)),
            {
                proof {
                    assert(entries@.take(i as int + 1).drop_last() =~= entries@.take(i as int));
                    assert(entries@.take(i as int + 1).last() == entries@[i as int]);
                }
                let re = &entries[i];
                if re.entry.kind == EntryKind::Dir {
                    let preview = get_preview_image(&re.contents);
                    photographers.push(
                        Photographer {
                            name: re.entry.name.clone(),
                            path: re.entry.path.clone(),
                            preview_image: preview,
                        },
                    );
                    proof {
                        assert(photographers@ =~= photographers_of(entries@.take(i as int + 1)));
                    }
                }
            }
            proof {
                assert(entries@.take(n as int) =~= entries@);
            }
            Ok(photographers)
        },
        RootListing::Unlistable(msg) => Err(ScanError::DirectoryReadFailure(msg.clone())),
    }
}

/// Lists the recognized image files of one folder, in enumeration order.
/// Fails exactly when the folder could not be listed; entries with
/// unreadable metadata are skipped.
pub fn get_images(folder: &DirListing) -> (r: Result<Vec<ImageFile>, ScanError>)
    ensures
        *folder matches DirListing::Listed(entries) ==> r matches Ok(images)
            && images@ == images_of(entries@) && images@.len() == image_count(entries@),
        *folder matches DirListing::Unlistable(msg) ==> r == Err::<Vec<ImageFile>, ScanError>(
            ScanError::DirectoryReadFailure(msg),
        ),
{
    match folder {
        DirListing::Listed(entries) => {
            let n = entries.len();
            let mut images: Vec<ImageFile> = Vec::new();
            for i in 0..n
                invariant
                    n == entries@.len(),
                    images@ == images_of(entries@.take(i as int)),
                    images@.len() == image_count(entries@.take(i as int)),
            {
                proof {
                    assert(entries@.take(i as int + 1).drop_last() =~= entries@.take(i as int));
                    assert(entries@.take(i as int + 1).last() == entries@[i as int]);
                }
                let e = &entries[i];
                if e.kind == EntryKind::File && is_image_file(e.name.as_str()) {
                    images.push(ImageFile { name: e.name.clone(), path: e.path.clone() });
                    proof {
                        assert(images@ =~= images_of(entries@.take(i as int + 1)));
                    }
                }
            }
            proof {
                assert(entries@.take(n as int) =~= entries@);
            }
            Ok(images)
        },
        DirListing::Unlistable(msg) => Err(ScanError::DirectoryReadFailure(msg.clone())),
    }
}

/// A scan yields exactly one photographer per sub-directory of the root.
pub proof fn lemma_photographer_count(entries: Seq<RootEntry>)
    ensures
        photographers_of(entries).len() == dir_count(entries),
    decreases entries.len(),
{
    if entries.len() > 0 {
        lemma_photographer_count(entries.drop_last());
    }
}

/// A scan yields exactly one record per recognized image file of the folder.
pub proof fn lemma_image_count(entries: Seq<Entry>)
    ensures
        images_of(entries).len() == image_count(entries),
    decreases entries.len(),
{
    if entries.len() > 0 {
        lemma_image_count(entries.drop_last());
    }
}

/// A root with no sub-directories yields no photographers at all (and no
/// error): files at the root are ignored.
pub proof fn lemma_no_directories_no_photographers(entries: Seq<RootEntry>)
    requires
        forall|i: int| 0 <= i < entries.len() ==> !((#[trigger] entries[i]).entry.kind is Dir),
    ensures
        photographers_of(entries) == Seq::<Photographer>::empty(),
    decreases entries.len(),
{
    if entries.len() > 0 {
        assert(forall|i: int|
            0 <= i < entries.drop_last().len() ==> entries.drop_last()[i] == entries[i]);
        lemma_no_directories_no_photographers(entries.drop_last());
        assert(photographers_of(entries) =~= Seq::<Photographer>::empty());
    }
}

/// Preview selection returns none exactly when the directory holds no
/// recognized image file; when it holds one, the preview is the path of such
/// an entry.
pub proof fn lemma_preview_exists(entries: Seq<Entry>)
    ensures
        (preview_of(entries) is None) <==> (forall|i: int|
            0 <= i < entries.len() ==> !is_image_entry(#[trigger] entries[i])),
        (preview_of(entries) is Some) ==> exists|i: int|
            0 <= i < entries.len() && is_image_entry(#[trigger] entries[i]) && preview_of(entries)
                == Some(entries[i].path),
    decreases entries.len(),
{
    if entries.len() > 0 {
        if is_image_entry(entries[0]) {
            assert(preview_of(entries) == Some(entries[0].path));
            assert(!(forall|i: int|
                0 <= i < entries.len() ==> !is_image_entry(#[trigger] entries[i]))) by {
                assert(is_image_entry(entries[0]));
            }
            assert(0 <= 0 < entries.len() && is_image_entry(entries[0]) && preview_of(entries)
                == Some(entries[0].path));
        } else {
            lemma_preview_exists(entries.drop_first());
            assert(forall|i: int|
                0 <= i < entries.drop_first().len() ==> #[trigger] entries.drop_first()[i]
                    == entries[i + 1]);
            if preview_of(entries) is None {
                assert forall|i: int| 0 <= i < entries.len() implies !is_image_entry(
                    #[trigger] entries[i],
                ) by {
                    if i > 0 {
                        assert(entries.drop_first()[i - 1] == entries[i]);
                        assert(!is_image_entry(entries.drop_first()[i - 1]));
                    }
                }
            } else {
                let j = choose|j: int|
                    0 <= j < entries.drop_first().len() && is_image_entry(
                        #[trigger] entries.drop_first()[j],
                    ) && preview_of(entries.drop_first()) == Some(entries.drop_first()[j].path);
                assert(is_image_entry(entries[j + 1]) && preview_of(entries) == Some(
                    entries[j + 1].path,
                ));
                assert(!(forall|i: int|
                    0 <= i < entries.len() ==> !is_image_entry(#[trigger] entries[i]))) by {
                    assert(is_image_entry(entries[j + 1]));
                }
            }
        }
    }
}

} // verus!
