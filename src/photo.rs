use vstd::prelude::*;
use crate::errors::Error;
use crate::order::{key_equal, key_less, key_lt, lemma_key_lt_order};
use crate::paths::{components, extension, file_name, path_components, path_extension, texts};
use crate::text::{lower_of, lowercase, same_text};

verus! {

/// A path found on disk, and the source it was derived from, if any.
#[derive(Debug, PartialEq, Eq)]
pub struct File {
    pub path: String,
    pub derived_from: Option<String>,
}

impl File {
    /// A file that is derived from no other file.
    pub fn is_source(&self) -> (r: bool)
        ensures
            r == self.derived_from is None,
    {
        self.derived_from.is_none()
    }
}

/// The lower-case extensions of the media files that are grouped.
pub open spec fn is_media_ext(e: Seq<char>) -> bool {
    e == "cr2"@ || e == "jpg"@ || e == "jpeg"@ || e == "mov"@ || e == "xmp"@
}

/// A path whose extension, in lower case, is that of a media file.
pub open spec fn is_media_path(p: Seq<char>) -> bool {
    match path_extension(p) {
        Some(e) => is_media_ext(lower_of(e)),
        None => false,
    }
}

/// The paths of media files among `ps`, in order.
pub open spec fn media_paths(ps: Seq<String>) -> Seq<String>
    decreases ps.len(),
{
    if ps.len() == 0 {
        Seq::empty()
    } else if is_media_path(ps.last()@) {
        media_paths(ps.drop_last()).push(ps.last())
    } else {
        media_paths(ps.drop_last())
    }
}

/// Whether a lower-case extension is that of a media file.
pub fn is_media_extension(e: &str) -> (r: bool)
    ensures
        r == is_media_ext(e@),
{
    same_text(e, "cr2") || same_text(e, "jpg") || same_text(e, "jpeg") || same_text(e, "mov") || same_text(
        e,
        "xmp",
    )
}

fn is_media_file(path: &String) -> (r: bool)
    ensures
        r == is_media_path(path@),
{
    match file_name(path.as_str()) {
        None => false,
        Some(name) => match extension(name.as_str()) {
            None => false,
            Some(e) => {
                let l = lowercase(e.as_str());
                is_media_extension(l.as_str())
            },
        },
    }
}

/// Keeps the media files among `paths`, in order, and asks `derived_from`
/// once for each of them which source it was derived from.
pub fn classify_files_impl<F>(paths: &Vec<String>, derived_from: F) -> (r: Vec<File>) where
    F: Fn(&String) -> Option<String>,

    requires
        forall|p: &String| #[trigger] derived_from.requires((p,)),
    ensures
        classified_from(r@, paths@, derived_from),
{
    let mut out: Vec<File> = Vec::new();
    let mut i: usize = 0;
    while i < paths.len()
        invariant
            i <= paths@.len(),
            forall|p: &String| #[trigger] derived_from.requires((p,)),
            out@.len() == media_paths(paths@.subrange(0, i as int)).len(),
            forall|j: int|
                0 <= j < out@.len() ==> #[trigger] out@[j].path == media_paths(
                    paths@.subrange(0, i as int),
                )[j] && derived_from.ensures((&out@[j].path,), out@[j].derived_from),
        decreases paths@.len() - i,
    {
        proof {
            assert(paths@.subrange(0, i + 1).drop_last() =~= paths@.subrange(0, i as int));
        }
        if is_media_file(&paths[i]) {
            let d = derived_from(&paths[i]);
            let p = paths[i].clone();
            out.push(File { path: p, derived_from: d });
        }
        i = i + 1;
    }
    proof {
        assert(paths@.subrange(0, i as int) =~= paths@);
    }
    out
}

/// One source file with the files derived from it, in the order found.
#[derive(Debug, PartialEq, Eq)]
pub struct Photo {
    pub source: String,
    pub derived: Vec<String>,
}

impl Photo {
    /// A photo of `file` with no derived files yet.
    pub fn new(file: String) -> (r: Photo)
        ensures
            r.source == file,
            r.derived@.len() == 0,
    {
        Photo { source: file, derived: Vec::new() }
    }

    /// Adds a derived file at the end.
    pub fn add_derived(&mut self, file: String)
        ensures
            final(self).source == old(self).source,
            final(self).derived@ == old(self).derived@.push(file),
    {
        self.derived.push(file);
    }
}

/// The paths of the files in `files` derived from a source whose components
/// are `k`, in order.
pub open spec fn derived_of(files: Seq<File>, k: Seq<Seq<char>>) -> Seq<Seq<char>>
    decreases files.len(),
{
    if files.len() == 0 {
        Seq::empty()
    } else {
        let rest = derived_of(files.drop_last(), k);
        match files.last().derived_from {
            Some(s) => if components(s@) == k {
                rest.push(files.last().path@)
            } else {
                rest
            },
            None => rest,
        }
    }
}

/// Some source file in `files` has the components `k`.
pub open spec fn has_source(files: Seq<File>, k: Seq<Seq<char>>) -> bool {
    exists|j: int|
        0 <= j < files.len() && (#[trigger] files[j]).derived_from is None && components(files[j].path@)
            == k
}

/// `files[i]` is derived from a source that is not among the source files.
pub open spec fn is_missing(files: Seq<File>, i: int) -> bool {
    match files[i].derived_from {
        Some(s) => !has_source(files, components(s@)),
        None => false,
    }
}

/// The components of a photo's source path.
pub open spec fn source_key(p: Photo) -> Seq<Seq<char>> {
    components(p.source@)
}

/// `keys` holds the components of each photo's source, and the photos are in
/// strictly ascending order of them.
pub open spec fn sorted_keys(photos: Seq<Photo>, keys: Seq<Vec<String>>) -> bool {
    &&& photos.len() == keys.len()
    &&& forall|a: int| 0 <= a < keys.len() ==> texts(#[trigger] keys[a]@) == source_key(photos[a])
    &&& forall|a: int, b: int|
        0 <= a < b < photos.len() ==> key_lt(source_key(#[trigger] photos[a]), source_key(#[trigger] photos[b]))
}

/// Some photo has a source with the components `k`.
pub open spec fn has_photo(photos: Seq<Photo>, k: Seq<Seq<char>>) -> bool {
    exists|a: int| 0 <= a < photos.len() && source_key(#[trigger] photos[a]) == k
}

/// Each photo's source is the path of a source file.
pub open spec fn photos_sourced(files: Seq<File>, photos: Seq<Photo>) -> bool {
    forall|a: int|
        0 <= a < photos.len() ==> exists|j: int|
            0 <= j < files.len() && (#[trigger] files[j]).derived_from is None && files[j].path == (
            #[trigger] photos[a]).source
}

/// Each source file among the first `upto` has a photo.
pub open spec fn sources_indexed(files: Seq<File>, upto: int, photos: Seq<Photo>) -> bool {
    forall|j: int|
        0 <= j < upto && (#[trigger] files[j]).derived_from is None ==> has_photo(
            photos,
            components(files[j].path@),
        )
}

/// Adds a photo of `path` in its place, unless one with the same source
/// components is there already.
fn insert_source(photos: &mut Vec<Photo>, keys: &mut Vec<Vec<String>>, path: &String)
    requires
        sorted_keys(old(photos)@, old(keys)@),
        forall|a: int| 0 <= a < old(photos)@.len() ==> (#[trigger] old(photos)@[a]).derived@.len() == 0,
    ensures
        sorted_keys(final(photos)@, final(keys)@),
        forall|a: int| 0 <= a < final(photos)@.len() ==> (#[trigger] final(photos)@[a]).derived@.len() == 0,
        has_photo(final(photos)@, components(path@)),
        forall|k: Seq<Seq<char>>| has_photo(old(photos)@, k) ==> #[trigger] has_photo(final(photos)@, k),
        forall|a: int|
            0 <= a < final(photos)@.len() ==> (#[trigger] final(photos)@[a]).source == *path || exists|b: int|
                0 <= b < old(photos)@.len() && (#[trigger] old(photos)@[b]).source == final(photos)@[a].source,
{
    let k = path_components(path.as_str());
    let mut pos: usize = 0;
    while pos < keys.len() && key_less(&keys[pos], &k)
        invariant
            pos <= keys@.len(),
            forall|a: int| 0 <= a < pos ==> key_lt(texts(#[trigger] keys@[a]@), texts(k@)),
        decreases keys@.len() - pos,
    {
        pos = pos + 1;
    }
    if pos < keys.len() && key_equal(&keys[pos], &k) {
        proof {
            assert(source_key(photos@[pos as int]) == components(path@));
        }
        return;
    }
    let ghost old_photos = photos@;
    let ghost old_keys = keys@;
    let ghost kk = texts(k@);
    proof {
        if pos < keys@.len() {
            lemma_key_lt_order(texts(keys@[pos as int]@), kk, kk);
            assert(key_lt(kk, texts(keys@[pos as int]@)));
        }
    }
    keys.insert(pos, k);
    let p = Photo::new(path.clone());
    photos.insert(pos, p);
    proof {
        assert forall|a: int| 0 <= a < keys@.len() implies texts(#[trigger] keys@[a]@) == source_key(
            photos@[a],
        ) by {
            if a < pos {
                assert(keys@[a] == old_keys[a]);
                assert(photos@[a] == old_photos[a]);
            } else if a > pos {
                assert(keys@[a] == old_keys[a - 1]);
                assert(photos@[a] == old_photos[a - 1]);
            }
        }
        assert forall|a: int, b: int| 0 <= a < b < photos@.len() implies key_lt(
            source_key(#[trigger] photos@[a]),
            source_key(#[trigger] photos@[b]),
        ) by {
            if a < pos && b == pos {
                assert(texts(keys@[a]@) == source_key(photos@[a]));
                assert(keys@[a] == old_keys[a]);
            } else if a < pos && b > pos {
                assert(photos@[a] == old_photos[a]);
                assert(photos@[b] == old_photos[b - 1]);
                assert(keys@[a] == old_keys[a]);
                lemma_key_lt_order(source_key(photos@[a]), kk, source_key(photos@[b]));
                if b - 1 > pos {
                    lemma_key_lt_order(kk, texts(old_keys[pos as int]@), source_key(photos@[b]));
                }
            } else if a == pos {
                assert(photos@[b] == old_photos[b - 1]);
                if b - 1 > pos {
                    lemma_key_lt_order(kk, texts(old_keys[pos as int]@), source_key(photos@[b]));
                }
            } else if a > pos {
                assert(photos@[a] == old_photos[a - 1]);
                assert(photos@[b] == old_photos[b - 1]);
            } else {
                assert(photos@[a] == old_photos[a]);
                assert(photos@[b] == old_photos[b]);
            }
        }
        assert forall|a: int| 0 <= a < photos@.len() implies (#[trigger] photos@[a]).derived@.len() == 0 by {
            if a < pos {
                assert(photos@[a] == old_photos[a]);
            } else if a > pos {
                assert(photos@[a] == old_photos[a - 1]);
            }
        }
        assert forall|kx: Seq<Seq<char>>| has_photo(old_photos, kx) implies #[trigger] has_photo(
            photos@,
            kx,
        ) by {
            let a0 = choose|a: int| 0 <= a < old_photos.len() && source_key(#[trigger] old_photos[a]) == kx;
            if a0 < pos {
                assert(photos@[a0] == old_photos[a0]);
            } else {
                assert(photos@[a0 + 1] == old_photos[a0]);
            }
        }
        assert forall|a: int| 0 <= a < photos@.len() implies (#[trigger] photos@[a]).source == *path
            || exists|b: int| 0 <= b < old_photos.len() && (#[trigger] old_photos[b]).source == photos@[a].source by {
            if a < pos {
                assert(photos@[a] == old_photos[a]);
            } else if a > pos {
                assert(photos@[a] == old_photos[a - 1]);
            }
        }
        assert(source_key(photos@[pos as int]) == components(path@));
    }
}

/// Adds `path` to the derived files of the photo whose source components are
/// `k`; returns whether there is one.
fn attach_derived(photos: &mut Vec<Photo>, keys: &Vec<Vec<String>>, k: &Vec<String>, path: &String) -> (found: bool)
    requires
        sorted_keys(old(photos)@, keys@),
    ensures
        found == has_photo(old(photos)@, texts(k@)),
        sorted_keys(final(photos)@, keys@),
        final(photos)@.len() == old(photos)@.len(),
        forall|a: int| 0 <= a < final(photos)@.len() ==> (#[trigger] final(photos)@[a]).source == old(photos)@[a].source,
        forall|a: int|
            0 <= a < final(photos)@.len() ==> texts((#[trigger] final(photos)@[a]).derived@) == if source_key(
                old(photos)@[a],
            ) == texts(k@) {
                texts(old(photos)@[a].derived@).push(path@)
            } else {
                texts(old(photos)@[a].derived@)
            },
{
    let mut idx: usize = 0;
    while idx < keys.len() && !key_equal(&keys[idx], k)
        invariant
            idx <= keys@.len(),
            forall|a: int| 0 <= a < idx ==> texts(#[trigger] keys@[a]@) != texts(k@),
        decreases keys@.len() - idx,
    {
        idx = idx + 1;
    }
    if idx == keys.len() {
        proof {
            if has_photo(photos@, texts(k@)) {
                let a = choose|a: int| 0 <= a < photos@.len() && source_key(#[trigger] photos@[a]) == texts(k@);
                assert(texts(keys@[a]@) == texts(k@));
            }
        }
        return false;
    }
    let ghost old_photos = photos@;
    let mut p = photos.remove(idx);
    p.add_derived(path.clone());
    photos.insert(idx, p);
    proof {
        assert(source_key(old_photos[idx as int]) == texts(k@));
        assert forall|a: int| 0 <= a < photos@.len() implies (#[trigger] photos@[a]).source == old_photos[a].source by {
            if a != idx {
                assert(photos@[a] == old_photos[a]);
            }
        }
        assert forall|a: int| 0 <= a < keys@.len() implies texts(#[trigger] keys@[a]@) == source_key(photos@[a]) by {
            assert(photos@[a].source == old_photos[a].source);
        }
        assert forall|a: int, b: int| 0 <= a < b < photos@.len() implies key_lt(
            source_key(#[trigger] photos@[a]),
            source_key(#[trigger] photos@[b]),
        ) by {
            assert(photos@[a].source == old_photos[a].source);
            assert(photos@[b].source == old_photos[b].source);
        }
        assert forall|a: int| 0 <= a < photos@.len() implies texts((#[trigger] photos@[a]).derived@) == if source_key(
            old_photos[a],
        ) == texts(k@) {
            texts(old_photos[a].derived@).push(path@)
        } else {
            texts(old_photos[a].derived@)
        } by {
            if a == idx {
                assert(texts(photos@[a].derived@) =~= texts(old_photos[a].derived@).push(path@));
            } else {
                assert(photos@[a] == old_photos[a]);
                let ka = source_key(old_photos[a]);
                lemma_key_lt_order(ka, ka, ka);
                if a < idx {
                    assert(key_lt(ka, source_key(old_photos[idx as int])));
                } else {
                    assert(key_lt(source_key(old_photos[idx as int]), ka));
                }
            }
        }
    }
    true
}

/// `r` is what grouping `files` gives: an error exactly when a derived file
/// refers to a source that is not among the source files, naming the first
/// such file;
/// otherwise the photos sorted by source path, one for each distinct source
/// path, each with the paths of the files derived from it in input order.
pub open spec fn grouping_of(files: Seq<File>, r: Result<Vec<Photo>, Error>) -> bool {
    &&& r is Err <==> exists|i: int| 0 <= i < files.len() && #[trigger] is_missing(files, i)
    &&& r matches Err(e) ==> exists|i: int|
        0 <= i < files.len() && #[trigger] is_missing(files, i) && (forall|j: int|
            0 <= j < i ==> !#[trigger] is_missing(files, j)) && e == Error::MissingSource(
            files[i].path,
            files[i].derived_from->0,
        )
    &&& r matches Ok(ps) ==> {
        &&& forall|a: int, b: int|
            0 <= a < b < ps@.len() ==> key_lt(source_key(#[trigger] ps@[a]), source_key(#[trigger] ps@[b]))
        &&& photos_sourced(files, ps@)
        &&& sources_indexed(files, files.len() as int, ps@)
        &&& forall|a: int|
            0 <= a < ps@.len() ==> texts((#[trigger] ps@[a]).derived@) == derived_of(files, source_key(ps@[a]))
    }
}

/// `files` is what classifying `paths` gives with the lookup `derived_from`.
pub open spec fn classified_from<F: Fn(&String) -> Option<String>>(
    files: Seq<File>,
    paths: Seq<String>,
    derived_from: F,
) -> bool {
    &&& files.len() == media_paths(paths).len()
    &&& forall|i: int|
        0 <= i < files.len() ==> #[trigger] files[i].path == media_paths(paths)[i]
            && derived_from.ensures((&files[i].path,), files[i].derived_from)
}

/// Gathers each source file with the files derived from it; the photos come
/// sorted by source path, one for each distinct source path.
pub fn group_photo_files_impl(files: &Vec<File>) -> (r: Result<Vec<Photo>, Error>)
    ensures
        grouping_of(files@, r),
{
    let n = files.len();
    let mut photos: Vec<Photo> = Vec::new();
    let mut keys: Vec<Vec<String>> = Vec::new();
    let mut i: usize = 0;
    while i < n
        invariant
            n == files@.len(),
            i <= n,
            sorted_keys(photos@, keys@),
            forall|a: int| 0 <= a < photos@.len() ==> (#[trigger] photos@[a]).derived@.len() == 0,
            photos_sourced(files@, photos@),
            sources_indexed(files@, i as int, photos@),
        decreases n - i,
    {
        if files[i].is_source() {
            let ghost old_photos = photos@;
            insert_source(&mut photos, &mut keys, &files[i].path);
            proof {
                assert forall|a: int| 0 <= a < photos@.len() implies exists|j: int|
                    0 <= j < files@.len() && (#[trigger] files@[j]).derived_from is None && files@[j].path == (
                    #[trigger] photos@[a]).source by {
                    if photos@[a].source != files@[i as int].path {
                        let b = choose|b: int| 0 <= b < old_photos.len() && (#[trigger] old_photos[b]).source == photos@[a].source;
                        assert(old_photos[b].source == photos@[a].source);
                    }
                }
                assert forall|j: int| 0 <= j < i + 1 && (#[trigger] files@[j]).derived_from is None implies has_photo(
                    photos@,
                    components(files@[j].path@),
                ) by {
                    if j < i {
                        assert(has_photo(old_photos, components(files@[j].path@)));
                    }
                }
            }
        }
        i = i + 1;
    }
    let ghost np = photos@.len();
    proof {
        assert forall|a: int| 0 <= a < photos@.len() implies texts((#[trigger] photos@[a]).derived@)
            == derived_of(files@.subrange(0, 0), source_key(photos@[a])) by {
            assert(texts(photos@[a].derived@) =~= Seq::<Seq<char>>::empty());
        }
    }
    let mut i: usize = 0;
    while i < n
        invariant
            n == files@.len(),
            i <= n,
            sorted_keys(photos@, keys@),
            photos_sourced(files@, photos@),
            sources_indexed(files@, n as int, photos@),
            forall|a: int|
                0 <= a < photos@.len() ==> texts((#[trigger] photos@[a]).derived@) == derived_of(
                    files@.subrange(0, i as int),
                    source_key(photos@[a]),
                ),
            forall|j: int| 0 <= j < i ==> !#[trigger] is_missing(files@, j),
        decreases n - i,
    {
        let ghost before = files@.subrange(0, i as int);
        let ghost after = files@.subrange(0, i + 1);
        proof {
            assert(after.drop_last() =~= before);
            assert(after.last() == files@[i as int]);
        }
        match &files[i].derived_from {
            None => {
                proof {
                    assert forall|a: int| 0 <= a < photos@.len() implies texts(
                        (#[trigger] photos@[a]).derived@,
                    ) == derived_of(after, source_key(photos@[a])) by {
                        assert(derived_of(after, source_key(photos@[a])) == derived_of(
                            before,
                            source_key(photos@[a]),
                        ));
                    }
                }
            },
            Some(s) => {
                let k = path_components(s.as_str());
                let ghost old_photos = photos@;
                let found = attach_derived(&mut photos, &keys, &k, &files[i].path);
                if !found {
                    proof {
                        if has_source(files@, components(s@)) {
                            let j = choose|j: int|
                                0 <= j < files@.len() && (#[trigger] files@[j]).derived_from is None
                                    && components(files@[j].path@) == components(s@);
                            assert(has_photo(old_photos, components(files@[j].path@)));
                        }
                        assert(is_missing(files@, i as int));
                    }
                    return Err(Error::MissingSource(files[i].path.clone(), s.clone()));
                }
                proof {
                    let a = choose|a: int| 0 <= a < old_photos.len() && source_key(#[trigger] old_photos[a]) == texts(k@);
                    let j = choose|j: int|
                        0 <= j < files@.len() && (#[trigger] files@[j]).derived_from is None && files@[j].path == (
                        old_photos[a]).source;
                    assert(components(files@[j].path@) == components(s@));
                    assert(!is_missing(files@, i as int));
                    assert forall|a: int| 0 <= a < photos@.len() implies exists|j: int|
                        0 <= j < files@.len() && (#[trigger] files@[j]).derived_from is None && files@[j].path == (
                        #[trigger] photos@[a]).source by {
                        assert(photos@[a].source == old_photos[a].source);
                    }
                    assert forall|j: int| 0 <= j < n && (#[trigger] files@[j]).derived_from is None implies has_photo(
                        photos@,
                        components(files@[j].path@),
                    ) by {
                        assert(has_photo(old_photos, components(files@[j].path@)));
                        let a = choose|a: int| 0 <= a < old_photos.len() && source_key(#[trigger] old_photos[a]) == components(files@[j].path@);
                        assert(source_key(photos@[a]) == source_key(old_photos[a]));
                    }
                    assert forall|a: int| 0 <= a < photos@.len() implies texts(
                        (#[trigger] photos@[a]).derived@,
                    ) == derived_of(after, source_key(photos@[a])) by {
                        assert(source_key(photos@[a]) == source_key(old_photos[a]));
                    }
                }
            },
        }
        i = i + 1;
    }
    proof {
        assert(files@.subrange(0, n as int) =~= files@);
    }
    Ok(photos)
}

/// Classifies `files` with the lookup `derived_from` and groups the media
/// files among them into photos.
pub fn group_photo_files<F>(files: &Vec<String>, derived_from: F) -> (r: Result<Vec<Photo>, Error>) where
    F: Fn(&String) -> Option<String>,

    requires
        forall|p: &String| #[trigger] derived_from.requires((p,)),
    ensures
        exists|c: Seq<File>| classified_from(c, files@, derived_from) && grouping_of(c, r),
{
    let classified = classify_files_impl(files, derived_from);
    group_photo_files_impl(&classified)
}

} // verus!
