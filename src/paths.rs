use vstd::prelude::*;
use crate::text::{find_last_dot, last_dot, lemma_pieces_len, pieces, same_text};

verus! {

/// The pieces that are not empty, in order.
pub open spec fn nonempty(ps: Seq<Seq<char>>) -> Seq<Seq<char>>
    decreases ps.len(),
{
    if ps.len() == 0 {
        Seq::empty()
    } else if ps.last().len() > 0 {
        nonempty(ps.drop_last()).push(ps.last())
    } else {
        nonempty(ps.drop_last())
    }
}

/// The components of a path written as text: a leading `/` is the root
/// component `/`, the others are the non-empty pieces between separators.
/// `.` and `..` are kept as written.
pub open spec fn components(s: Seq<char>) -> Seq<Seq<char>> {
    if s.len() > 0 && s[0] == '/' {
        seq![seq!['/']] + nonempty(pieces(s, '/'))
    } else {
        nonempty(pieces(s, '/'))
    }
}

/// The texts of a sequence of strings.
pub open spec fn texts(v: Seq<String>) -> Seq<Seq<char>> {
    v.map_values(|c: String| c@)
}

/// `name` joined onto `dir` with one separator between them.
pub open spec fn join_text(dir: Seq<char>, name: Seq<char>) -> Seq<char> {
    if dir.len() == 0 {
        name
    } else if dir.last() == '/' {
        dir + name
    } else {
        dir + seq!['/'] + name
    }
}

/// A path built from its components, as `PathBuf::push` builds it.
pub open spec fn joined(cs: Seq<Seq<char>>) -> Seq<char>
    decreases cs.len(),
{
    if cs.len() == 0 {
        Seq::empty()
    } else {
        join_text(joined(cs.drop_last()), cs.last())
    }
}

/// Splits a path into its components.
pub fn path_components(path: &str) -> (r: Vec<String>)
    ensures
        texts(r@) == components(path@),
{
    let n = path.unicode_len();
    let mut out: Vec<String> = Vec::new();
    let ghost root: Seq<Seq<char>> = Seq::empty();
    if n > 0 && path.get_char(0) == '/' {
        let r = path.substring_char(0, 1).to_owned();
        out.push(r);
        proof {
            root = seq![seq!['/']];
            assert(r@ =~= seq!['/']);
            assert(texts(out@) =~= root);
        }
    }
    let mut start: usize = 0;
    let mut i: usize = 0;
    proof {
        assert(path@.subrange(0, 0) =~= Seq::<char>::empty());
        assert(nonempty(pieces(path@.subrange(0, 0), '/').drop_last()) =~= Seq::<Seq<char>>::empty());
        assert(texts(out@) =~= root + nonempty(pieces(path@.subrange(0, 0), '/').drop_last()));
    }
    while i < n
        invariant
            n == path@.len(),
            start <= i <= n,
            root == (if n > 0 && path@[0] == '/' { seq![seq!['/']] } else { Seq::<Seq<char>>::empty() }),
            pieces(path@.subrange(0, i as int), '/').last() == path@.subrange(start as int, i as int),
            texts(out@) == root + nonempty(pieces(path@.subrange(0, i as int), '/').drop_last()),
        decreases n - i,
    {
        let ghost before = path@.subrange(0, i as int);
        let ghost after = path@.subrange(0, i + 1);
        proof {
            assert(after.drop_last() =~= before);
            lemma_pieces_len(before, '/');
        }
        let c = path.get_char(i);
        if c == '/' {
            if i > start {
                let piece = path.substring_char(start, i).to_owned();
                let ghost old_out = out@;
                out.push(piece);
                proof {
                    assert(texts(out@) =~= texts(old_out).push(piece@));
                }
            }
            proof {
                let p = pieces(before, '/');
                assert(pieces(after, '/') == p.push(Seq::empty()));
                assert(pieces(after, '/').drop_last() =~= p);
                assert(p =~= p.drop_last().push(p.last()));
                assert(nonempty(p) == (if p.last().len() > 0 {
                    nonempty(p.drop_last()).push(p.last())
                } else {
                    nonempty(p.drop_last())
                }));
                assert(path@.subrange(i + 1, i + 1) =~= Seq::<char>::empty());
            }
            start = i + 1;
        } else {
            proof {
                let p = pieces(before, '/');
                assert(pieces(after, '/') == p.update(p.len() - 1, p.last().push(c)));
                assert(pieces(after, '/').drop_last() =~= p.drop_last());
                assert(path@.subrange(start as int, i + 1) =~= path@.subrange(start as int, i as int).push(c));
            }
        }
        i = i + 1;
    }
    let ghost p = pieces(path@.subrange(0, n as int), '/');
    proof {
        assert(path@.subrange(0, n as int) =~= path@);
        lemma_pieces_len(path@, '/');
        assert(p =~= p.drop_last().push(p.last()));
    }
    if start < n {
        let piece = path.substring_char(start, n).to_owned();
        let ghost old_out = out@;
        out.push(piece);
        proof {
            assert(texts(out@) =~= texts(old_out).push(piece@));
            assert(root + nonempty(p) =~= root + nonempty(p.drop_last()).push(p.last()));
        }
    } else {
        proof {
            assert(root + nonempty(p) =~= root + nonempty(p.drop_last()));
        }
    }
    out
}

/// The longest run of leading components that two paths share, and what
/// remains of each path after it.
#[derive(Debug, PartialEq, Eq)]
pub struct CommonPrefix {
    pub prefix: Vec<String>,
    pub suffix1: Vec<String>,
    pub suffix2: Vec<String>,
}

/// Moves the items of `v` from index `from` on into a new vector.
fn tail_from(v: &Vec<String>, from: usize) -> (r: Vec<String>)
    requires
        from <= v@.len(),
    ensures
        texts(r@) == texts(v@).subrange(from as int, v@.len() as int),
{
    let mut r: Vec<String> = Vec::new();
    let mut i: usize = from;
    while i < v.len()
        invariant
            from <= i <= v@.len(),
            texts(r@) == texts(v@).subrange(from as int, i as int),
        decreases v@.len() - i,
    {
        let ghost old_r = r@;
        let c = v[i].clone();
        r.push(c);
        proof {
            assert(texts(r@) =~= texts(old_r).push(v@[i as int]@));
            assert(texts(r@) =~= texts(v@).subrange(from as int, i + 1));
        }
        i = i + 1;
    }
    r
}

/// Splits two paths into their shared leading components and the two
/// remainders; the remainders never begin with the same component.
pub fn common_prefix(path1: &str, path2: &str) -> (r: CommonPrefix)
    ensures
        texts(r.prefix@) + texts(r.suffix1@) == components(path1@),
        texts(r.prefix@) + texts(r.suffix2@) == components(path2@),
        r.suffix1@.len() > 0 && r.suffix2@.len() > 0 ==> r.suffix1@[0]@ != r.suffix2@[0]@,
{
    let a = path_components(path1);
    let b = path_components(path2);
    let mut k: usize = 0;
    while k < a.len() && k < b.len() && a[k] == b[k]
        invariant
            k <= a@.len(),
            k <= b@.len(),
            texts(a@).subrange(0, k as int) == texts(b@).subrange(0, k as int),
        decreases a@.len() - k,
    {
        proof {
            assert(texts(a@).subrange(0, k + 1) =~= texts(b@).subrange(0, k + 1));
        }
        k = k + 1;
    }
    let mut prefix: Vec<String> = Vec::new();
    let mut i: usize = 0;
    while i < k
        invariant
            k <= a@.len(),
            i <= k,
            texts(prefix@) == texts(a@).subrange(0, i as int),
        decreases k - i,
    {
        let ghost old_p = prefix@;
        let c = a[i].clone();
        prefix.push(c);
        proof {
            assert(texts(prefix@) =~= texts(old_p).push(a@[i as int]@));
            assert(texts(prefix@) =~= texts(a@).subrange(0, i + 1));
        }
        i = i + 1;
    }
    let suffix1 = tail_from(&a, k);
    let suffix2 = tail_from(&b, k);
    proof {
        assert(texts(a@) =~= texts(a@).subrange(0, k as int) + texts(a@).subrange(k as int, a@.len() as int));
        assert(texts(b@) =~= texts(b@).subrange(0, k as int) + texts(b@).subrange(k as int, b@.len() as int));
        if suffix1@.len() > 0 && suffix2@.len() > 0 {
            assert(texts(suffix1@)[0] == a@[k as int]@);
            assert(texts(suffix2@)[0] == b@[k as int]@);
        }
    }
    CommonPrefix { prefix, suffix1, suffix2 }
}

/// Joins `name` onto `dir` with one separator between them.
pub fn join_path(dir: &str, name: &str) -> (r: String)
    ensures
        r@ == join_text(dir@, name@),
{
    let n = dir.unicode_len();
    let mut r = dir.to_owned();
    if n > 0 && dir.get_char(n - 1) != '/' {
        r.append("/");
        proof {
            reveal_strlit("/");
            assert(r@ =~= dir@ + seq!['/']);
        }
    }
    r.append(name);
    r
}

/// Builds a path from its components.
pub fn join_components(cs: &Vec<String>) -> (r: String)
    ensures
        r@ == joined(texts(cs@)),
{
    let mut r = String::new();
    let mut i: usize = 0;
    proof {
        assert(texts(cs@).subrange(0, 0) =~= Seq::<Seq<char>>::empty());
    }
    while i < cs.len()
        invariant
            i <= cs@.len(),
            r@ == joined(texts(cs@).subrange(0, i as int)),
        decreases cs@.len() - i,
    {
        let next = join_path(r.as_str(), cs[i].as_str());
        proof {
            assert(texts(cs@).subrange(0, i + 1).drop_last() =~= texts(cs@).subrange(0, i as int));
        }
        r = next;
        i = i + 1;
    }
    proof {
        assert(texts(cs@).subrange(0, cs@.len() as int) =~= texts(cs@));
    }
    r
}

/// A component that names an entry: not the root, `.` or `..`.
pub open spec fn is_normal(c: Seq<char>) -> bool {
    c != seq!['/'] && c != seq!['.'] && c != seq!['.', '.']
}

/// The last component of a path, where it names an entry.
pub open spec fn file_name_of(p: Seq<char>) -> Option<Seq<char>> {
    let cs = components(p);
    if cs.len() > 0 && is_normal(cs.last()) {
        Some(cs.last())
    } else {
        None
    }
}

/// A file name without its last extension; a name whose only `.` leads it
/// has no extension.
pub open spec fn stem_of(name: Seq<char>) -> Seq<char> {
    let k = last_dot(name);
    if k <= 0 {
        name
    } else {
        name.subrange(0, k)
    }
}

/// The text after the last `.` of a file name, if it has an extension.
pub open spec fn extension_of(name: Seq<char>) -> Option<Seq<char>> {
    let k = last_dot(name);
    if k <= 0 {
        None
    } else {
        Some(name.subrange(k + 1, name.len() as int))
    }
}

/// The extension of the file a path names.
pub open spec fn path_extension(p: Seq<char>) -> Option<Seq<char>> {
    match file_name_of(p) {
        Some(n) => extension_of(n),
        None => None,
    }
}

/// The last component of a path, where it names an entry.
pub fn file_name(path: &str) -> (r: Option<String>)
    ensures
        r is Some <==> file_name_of(path@) is Some,
        r matches Some(n) ==> file_name_of(path@) == Some(n@),
{
    let mut cs = path_components(path);
    let ghost all = texts(cs@);
    match cs.pop() {
        None => None,
        Some(last) => {
            proof {
                assert(all.last() == last@);
                reveal_strlit("/");
                reveal_strlit(".");
                reveal_strlit("..");
                assert("/"@ =~= seq!['/']);
                assert("."@ =~= seq!['.']);
                assert(".."@ =~= seq!['.', '.']);
            }
            if same_text(last.as_str(), "/") || same_text(last.as_str(), ".") || same_text(
                last.as_str(),
                "..",
            ) {
                None
            } else {
                Some(last)
            }
        },
    }
}

/// A file name without its last extension.
pub fn file_stem(name: &str) -> (r: String)
    ensures
        r@ == stem_of(name@),
{
    match find_last_dot(name) {
        Some(k) => {
            if k == 0 {
                name.to_owned()
            } else {
                name.substring_char(0, k).to_owned()
            }
        },
        None => name.to_owned(),
    }
}

/// The extension of a file name.
pub fn extension(name: &str) -> (r: Option<String>)
    ensures
        r matches Some(e) ==> extension_of(name@) == Some(e@),
        r is None ==> extension_of(name@) is None,
{
    match find_last_dot(name) {
        Some(k) => {
            if k == 0 {
                None
            } else {
                let n = name.unicode_len();
                Some(name.substring_char(k + 1, n).to_owned())
            }
        },
        None => None,
    }
}

/// Two component sequences that differ only in their last component.
pub open spec fn siblings(a: Seq<Seq<char>>, b: Seq<Seq<char>>) -> bool {
    &&& a.len() == b.len()
    &&& a.len() >= 1
    &&& a.drop_last() == b.drop_last()
    &&& a.last() != b.last()
}

/// The text that a moved file's back-reference holds: the last component of
/// the moved source, where file and source lie side by side in one directory.
pub fn reference_text(file: &str, referenced_image: &str) -> (r: Option<String>)
    ensures
        r is Some <==> siblings(components(file@), components(referenced_image@)),
        r matches Some(t) ==> t@ == components(referenced_image@).last(),
{
    let c = common_prefix(file, referenced_image);
    let ghost a = components(file@);
    let ghost b = components(referenced_image@);
    let ghost p = texts(c.prefix@);
    proof {
        assert(p.len() <= a.len());
        if siblings(a, b) {
            let n = a.len();
            if p.len() < n - 1 {
                assert(a[p.len() as int] == a.drop_last()[p.len() as int]);
                assert(b[p.len() as int] == b.drop_last()[p.len() as int]);
                assert(texts(c.suffix1@)[0] == a[p.len() as int]);
                assert(texts(c.suffix2@)[0] == b[p.len() as int]);
            } else if p.len() == n {
                assert(a =~= p);
                assert(b =~= p);
            }
        }
    }
    if c.suffix1.len() == 1 && c.suffix2.len() == 1 {
        proof {
            assert(a.drop_last() =~= p);
            assert(b.drop_last() =~= p);
            assert(a.last() == c.suffix1@[0]@);
            assert(b.last() == c.suffix2@[0]@);
        }
        Some(c.suffix2[0].clone())
    } else {
        None
    }
}

} // verus!
