use vstd::prelude::*;
use crate::errors::{Error, ErrorView};
use crate::paths::{file_name, file_name_of, file_stem, join_path, join_text, stem_of, texts};
use crate::photo::Photo;
use crate::text::{find_first_dot, first_dot, lower_of, lowercase, replace, replace_all};

verus! {

/// One step of a plan, not yet carried out.
#[derive(Debug, PartialEq, Eq)]
pub enum Cmd {
    /// Create a directory.
    CreateDirectory(String),
    /// Move a file (first) to a new path (second).
    Rename(String, String),
    /// Make a file (first) refer to a source image (second).
    AdjustRef(String, String),
}

/// A step of a plan, over texts.
pub enum CmdView {
    CreateDirectory(Seq<char>),
    Rename(Seq<char>, Seq<char>),
    AdjustRef(Seq<char>, Seq<char>),
}

impl View for Cmd {
    type V = CmdView;

    open spec fn view(&self) -> CmdView {
        match self {
            Cmd::CreateDirectory(d) => CmdView::CreateDirectory(d@),
            Cmd::Rename(a, b) => CmdView::Rename(a@, b@),
            Cmd::AdjustRef(a, b) => CmdView::AdjustRef(a@, b@),
        }
    }
}

/// The views of a sequence of steps.
pub open spec fn cmd_views(v: Seq<Cmd>) -> Seq<CmdView> {
    v.map_values(|c: Cmd| c@)
}

/// A file name with `old` replaced by `new` in the part before the first `.`,
/// and the part from the first `.` on in lower case.
pub open spec fn new_filename(name: Seq<char>, old: Seq<char>, new: Seq<char>) -> Seq<char> {
    let k = first_dot(name);
    if k < 0 {
        replace_all(name, old, new)
    } else {
        replace_all(name.subrange(0, k), old, new) + lower_of(name.subrange(k, name.len() as int))
    }
}

/// Replaces `old` with `new` in the stem of `file_name` (all before its first
/// `.`) and lowers the case of the extensions (all from the first `.` on).
pub fn make_new_filename(file_name: &str, old: &str, new: &str) -> (r: String)
    ensures
        r@ == new_filename(file_name@, old@, new@),
{
    match find_first_dot(file_name) {
        Some(index) => {
            let n = file_name.unicode_len();
            let stem = file_name.substring_char(0, index);
            let ext = file_name.substring_char(index, n);
            let mut r = replace(stem, old, new);
            let lower = lowercase(ext);
            r.append(lower.as_str());
            r
        },
        None => replace(file_name, old, new),
    }
}

/// Where `path` goes: into `out`, named after its file name with the source
/// stem `src_stem` replaced by `stem`.
pub open spec fn moved_path(path: Seq<char>, src_stem: Seq<char>, stem: Seq<char>, out: Seq<char>) -> Seq<char> {
    join_text(out, new_filename(file_name_of(path)->0, src_stem, stem))
}

/// The source stem of a photo: the file name of its source without its last
/// extension.
pub open spec fn source_stem(source: Seq<char>) -> Seq<char> {
    stem_of(file_name_of(source)->0)
}

/// The steps that move the source, then each derived file followed by the
/// repair of its reference to the moved source.
pub open spec fn move_steps(source: Seq<char>, derived: Seq<Seq<char>>, stem: Seq<char>, out: Seq<char>) -> Seq<CmdView>
    decreases derived.len(),
{
    let src_stem = source_stem(source);
    let new_source = moved_path(source, src_stem, stem, out);
    if derived.len() == 0 {
        seq![CmdView::Rename(source, new_source)]
    } else {
        let d = derived.last();
        let nd = moved_path(d, src_stem, stem, out);
        move_steps(source, derived.drop_last(), stem, out) + seq![
            CmdView::Rename(d, nd),
            CmdView::AdjustRef(nd, new_source),
        ]
    }
}

/// Every derived file has a file name.
pub open spec fn all_named(derived: Seq<Seq<char>>) -> bool {
    forall|i: int| 0 <= i < derived.len() ==> (#[trigger] file_name_of(derived[i])) is Some
}

/// The index of the first derived file without a file name, where there is
/// one.
pub open spec fn first_nameless(derived: Seq<Seq<char>>) -> int {
    choose|k: int|
        0 <= k < derived.len() && all_named(derived.subrange(0, k)) && (#[trigger] file_name_of(
            derived[k],
        )) is None
}

/// What moving a photo gives: the error for the source if it has no file
/// name, else for the first derived file without one, else the steps.
pub open spec fn move_result(source: Seq<char>, derived: Seq<Seq<char>>, stem: Seq<char>, out: Seq<char>) -> Result<
    Seq<CmdView>,
    ErrorView,
> {
    if file_name_of(source) is None {
        Err(ErrorView::NoBasename(source))
    } else if !all_named(derived) {
        Err(ErrorView::NoBasename(derived[first_nameless(derived)]))
    } else {
        Ok(move_steps(source, derived, stem, out))
    }
}

proof fn lemma_first_nameless(derived: Seq<Seq<char>>, i: int)
    requires
        0 <= i < derived.len(),
        all_named(derived.subrange(0, i)),
        file_name_of(derived[i]) is None,
    ensures
        first_nameless(derived) == i,
        !all_named(derived),
{
    assert(file_name_of(derived[i]) is None);
    let k = first_nameless(derived);
    assert(0 <= k < derived.len() && all_named(derived.subrange(0, k)) && file_name_of(derived[k]) is None);
    if k < i {
        assert(derived.subrange(0, i)[k] == derived[k]);
        assert(file_name_of(derived.subrange(0, i)[k]) is Some);
    } else if k > i {
        assert(derived.subrange(0, k)[i] == derived[i]);
        assert(file_name_of(derived.subrange(0, k)[i]) is Some);
    }
}

/// Moves a photo's source and derived files into `out_dir`, renamed after
/// `new_stem`, and makes each derived file refer to the moved source.
pub fn create_move_commands(photo: &Photo, new_stem: &str, out_dir: &str) -> (r: Result<Vec<Cmd>, Error>)
    ensures
        r is Ok <==> move_result(photo.source@, texts(photo.derived@), new_stem@, out_dir@) is Ok,
        r matches Ok(cmds) ==> move_result(photo.source@, texts(photo.derived@), new_stem@, out_dir@)
            == Ok::<Seq<CmdView>, ErrorView>(cmd_views(cmds@)),
        r matches Err(e) ==> move_result(photo.source@, texts(photo.derived@), new_stem@, out_dir@)
            == Err::<Seq<CmdView>, ErrorView>(e@),
{
    let ghost derived = crate::paths::texts(photo.derived@);
    let source_name = match file_name(photo.source.as_str()) {
        Some(n) => n,
        None => {
            return Err(Error::NoBasename(photo.source.clone()));
        },
    };
    let src_stem = file_stem(source_name.as_str());
    let new_source = make_new_filename(source_name.as_str(), src_stem.as_str(), new_stem);
    let new_source_file = join_path(out_dir, new_source.as_str());
    let mut cmds: Vec<Cmd> = Vec::new();
    cmds.push(Cmd::Rename(photo.source.clone(), new_source_file.clone()));
    proof {
        assert(derived.subrange(0, 0) =~= Seq::<Seq<char>>::empty());
        assert(cmd_views(cmds@) =~= move_steps(photo.source@, derived.subrange(0, 0), new_stem@, out_dir@));
    }
    let mut i: usize = 0;
    while i < photo.derived.len()
        invariant
            i <= photo.derived@.len(),
            derived == crate::paths::texts(photo.derived@),
            file_name_of(photo.source@) == Some(source_name@),
            src_stem@ == source_stem(photo.source@),
            new_source_file@ == moved_path(photo.source@, src_stem@, new_stem@, out_dir@),
            all_named(derived.subrange(0, i as int)),
            cmd_views(cmds@) == move_steps(photo.source@, derived.subrange(0, i as int), new_stem@, out_dir@),
        decreases photo.derived@.len() - i,
    {
        let d = &photo.derived[i];
        let name = match file_name(d.as_str()) {
            Some(n) => n,
            None => {
                proof {
                    assert(derived[i as int] == d@);
                    assert(file_name_of(derived[i as int]) is None);
                    lemma_first_nameless(derived, i as int);
                }
                return Err(Error::NoBasename(d.clone()));
            },
        };
        let nd = join_path(out_dir, make_new_filename(name.as_str(), src_stem.as_str(), new_stem).as_str());
        let ghost old_cmds = cmds@;
        cmds.push(Cmd::Rename(d.clone(), nd.clone()));
        cmds.push(Cmd::AdjustRef(nd, new_source_file.clone()));
        proof {
            let sub = derived.subrange(0, i + 1);
            assert(sub.drop_last() =~= derived.subrange(0, i as int));
            assert(sub.last() == d@);
            assert(cmd_views(cmds@) =~= cmd_views(old_cmds) + seq![
                CmdView::Rename(d@, nd@),
                CmdView::AdjustRef(nd@, new_source_file@),
            ]);
            assert forall|j: int| 0 <= j < sub.len() implies (#[trigger] file_name_of(sub[j])) is Some by {
                if j < i {
                    assert(sub[j] == derived.subrange(0, i as int)[j]);
                }
            }
        }
        i = i + 1;
    }
    proof {
        assert(derived.subrange(0, i as int) =~= derived);
    }
    Ok(cmds)
}

} // verus!
