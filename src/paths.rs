//! Paths as a root (such as `/`, `C:\`, or empty for a relative path)
//! followed by normal components and written with a separator, with the
//! operations that the index needs.

use vstd::prelude::*;
use crate::text::{forward_slashes, push_char};

verus! {

/// A path: its root text, its components, and the separator written
/// between components.
#[derive(Clone, Debug, PartialEq, Eq)]
pub struct DirPath {
    pub root: String,
    pub parts: Vec<String>,
    pub sep: char,
}

/// The mathematical value of a [`DirPath`].
pub struct PathView {
    pub root: Seq<char>,
    pub parts: Seq<Seq<char>>,
    pub sep: char,
}

impl View for DirPath {
    type V = PathView;

    open spec fn view(&self) -> PathView {
        PathView { root: self.root@, parts: self.parts@.map_values(|p: String| p@), sep: self.sep }
    }
}

/// The components joined with `/`.
pub open spec fn join_parts(parts: Seq<Seq<char>>) -> Seq<char>
    decreases parts.len(),
{
    if parts.len() == 0 {
        Seq::empty()
    } else if parts.len() == 1 {
        parts[0]
    } else {
        join_parts(parts.drop_last()) + seq!['/'] + parts.last()
    }
}

/// The components joined with `sep`.
pub open spec fn join_with(parts: Seq<Seq<char>>, sep: char) -> Seq<char>
    decreases parts.len(),
{
    if parts.len() == 0 {
        Seq::empty()
    } else if parts.len() == 1 {
        parts[0]
    } else {
        join_with(parts.drop_last(), sep) + seq![sep] + parts.last()
    }
}

/// The text of a path: its root, then its components joined with its
/// separator.
pub open spec fn path_text(p: PathView) -> Seq<char> {
    p.root + join_with(p.parts, p.sep)
}

/// Whether two paths name the same place: the same root and components,
/// whatever separator they are written with.
pub open spec fn same_place(a: PathView, b: PathView) -> bool {
    a.root == b.root && a.parts == b.parts
}

/// The path made of the root and the first `k` components of `p`.
pub open spec fn prefix_path(p: PathView, k: int) -> PathView {
    PathView { root: p.root, parts: p.parts.subrange(0, k), sep: p.sep }
}

/// The directory that holds the file at `p`; the empty path when `p` has no
/// component to drop.
pub open spec fn containing_dir(p: PathView) -> PathView {
    if p.parts.len() > 0 {
        prefix_path(p, p.parts.len() - 1)
    } else {
        PathView { root: Seq::empty(), parts: Seq::empty(), sep: p.sep }
    }
}

/// The components of `p` below `base`, when `base` is a prefix of `p`.
pub open spec fn strip_base(p: PathView, base: PathView) -> Option<Seq<Seq<char>>> {
    if p.root == base.root && base.parts.len() <= p.parts.len() && p.parts.subrange(
        0,
        base.parts.len() as int,
    ) == base.parts {
        Some(p.parts.subrange(base.parts.len() as int, p.parts.len() as int))
    } else {
        None
    }
}

/// Whether `p` is written with `/` or `\`, and every component is a
/// plain name: not empty, and holding neither `/` nor `\`.
pub open spec fn path_wf(p: PathView) -> bool {
    (p.sep == '/' || p.sep == '\\') && forall|i: int|
        0 <= i < p.parts.len() ==> (#[trigger] p.parts[i]).len() > 0 && !p.parts[i].contains('/')
            && !p.parts[i].contains('\\')
}

impl DirPath {
    /// Whether every component is a plain name.
    pub open spec fn wf(&self) -> bool {
        path_wf(self@)
    }
}

proof fn lemma_join_slash(parts: Seq<Seq<char>>)
    requires
        forall|i: int| 0 <= i < parts.len() ==> (#[trigger] parts[i]).len() > 0 && !parts[i].contains('/'),
    ensures
        parts.len() > 0 ==> join_parts(parts).len() > 0,
        parts.len() <= 1 ==> !join_parts(parts).contains('/'),
        parts.len() >= 2 ==> join_parts(parts)[join_parts(parts.drop_last()).len() as int] == '/',
        parts.len() >= 2 ==> join_parts(parts).len() == join_parts(parts.drop_last()).len() + 1
            + parts.last().len(),
    decreases parts.len(),
{
    if parts.len() == 1 {
        assert(join_parts(parts) == parts[0]);
    }
    if parts.len() >= 2 {
        assert(parts.drop_last().len() > 0);
        assert forall|i: int| 0 <= i < parts.drop_last().len() implies (#[trigger] parts.drop_last()[i]).len() > 0 by {
            assert(parts.drop_last()[i] == parts[i]);
        }
        lemma_join_slash(parts.drop_last());
    }
}

/// Names without backslashes, joined with `/` or `\`, read with every
/// backslash turned into `/`, are the names joined with `/`.
pub proof fn lemma_join_forward(parts: Seq<Seq<char>>, sep: char)
    requires
        sep == '/' || sep == '\\',
        forall|i: int| 0 <= i < parts.len() ==> !(#[trigger] parts[i]).contains('\\'),
    ensures
        forward_slashes(join_with(parts, sep)) == join_parts(parts),
    decreases parts.len(),
{
    if parts.len() == 0 {
        assert(forward_slashes(join_with(parts, sep)) =~= join_parts(parts));
    } else {
        let l = parts.last();
        assert(l == parts[parts.len() - 1]);
        assert(forward_slashes(l) =~= l) by {
            assert forall|k: int| 0 <= k < l.len() implies l[k] != '\\' by {
                if l[k] == '\\' {
                    assert(l.contains('\\'));
                }
            }
        }
        if parts.len() >= 2 {
            assert forall|i: int| 0 <= i < parts.drop_last().len() implies !(#[trigger] parts.drop_last()[i]).contains('\\') by {
                assert(parts.drop_last()[i] == parts[i]);
            }
            lemma_join_forward(parts.drop_last(), sep);
            let j = join_with(parts.drop_last(), sep);
            assert(forward_slashes(j + seq![sep] + l) =~= forward_slashes(j) + seq!['/'] + forward_slashes(l));
        }
    }
}

/// Joining plain names with `/` loses nothing: different lists of names
/// give different texts.
pub proof fn lemma_join_injective(p1: Seq<Seq<char>>, p2: Seq<Seq<char>>)
    requires
        forall|i: int| 0 <= i < p1.len() ==> (#[trigger] p1[i]).len() > 0 && !p1[i].contains('/'),
        forall|i: int| 0 <= i < p2.len() ==> (#[trigger] p2[i]).len() > 0 && !p2[i].contains('/'),
        join_parts(p1) == join_parts(p2),
    ensures
        p1 == p2,
    decreases p1.len(),
{
    let x = join_parts(p1);
    lemma_join_slash(p1);
    lemma_join_slash(p2);
    if p1.len() <= 1 && p2.len() >= 2 {
        assert(x.contains('/')) by {
            assert(x[join_parts(p2.drop_last()).len() as int] == '/');
        }
    } else if p2.len() <= 1 && p1.len() >= 2 {
        assert(x.contains('/')) by {
            assert(x[join_parts(p1.drop_last()).len() as int] == '/');
        }
    } else if p1.len() <= 1 && p2.len() <= 1 {
        if p1.len() == 1 && p2.len() == 1 {
            assert(join_parts(p1) == p1[0] && join_parts(p2) == p2[0]);
            assert(p1 =~= p2);
        } else {
            assert(p1 =~= p2);
        }
    } else {
        let (l1, l2) = (p1.last(), p2.last());
        let (j1, j2) = (join_parts(p1.drop_last()), join_parts(p2.drop_last()));
        assert(x == j1 + seq!['/'] + l1);
        assert(x == j2 + seq!['/'] + l2);
        if l1.len() < l2.len() {
            let k = x.len() - l1.len() - 1;
            assert(x[k] == '/');
            assert(l2[k - j2.len() - 1] == x[k]);
            assert(l2.contains('/'));
        } else if l2.len() < l1.len() {
            let k = x.len() - l2.len() - 1;
            assert(x[k] == '/');
            assert(l1[k - j1.len() - 1] == x[k]);
            assert(l1.contains('/'));
        }
        assert(l1 =~= x.subrange(x.len() - l1.len(), x.len() as int));
        assert(l2 =~= x.subrange(x.len() - l2.len(), x.len() as int));
        assert(j1 =~= x.subrange(0, j1.len() as int));
        assert(j2 =~= x.subrange(0, j2.len() as int));
        assert forall|i: int| 0 <= i < p1.drop_last().len() implies (#[trigger] p1.drop_last()[i]).len() > 0
            && !p1.drop_last()[i].contains('/') by {
            assert(p1.drop_last()[i] == p1[i]);
        }
        assert forall|i: int| 0 <= i < p2.drop_last().len() implies (#[trigger] p2.drop_last()[i]).len() > 0
            && !p2.drop_last()[i].contains('/') by {
            assert(p2.drop_last()[i] == p2[i]);
        }
        lemma_join_injective(p1.drop_last(), p2.drop_last());
        assert(p1 =~= p1.drop_last().push(l1));
        assert(p2 =~= p2.drop_last().push(l2));
    }
}

/// Joins `parts[from..to]` with `sep`.
pub fn join_range(parts: &Vec<String>, from: usize, to: usize, sep: char) -> (r: String)
    requires
        from <= to <= parts@.len(),
    ensures
        r@ == join_with(parts@.map_values(|p: String| p@).subrange(from as int, to as int), sep),
{
    let ghost all = parts@.map_values(|p: String| p@);
    let mut out = String::new();
    let mut i: usize = from;
    assert(all.subrange(from as int, from as int) =~= Seq::<Seq<char>>::empty());
    while i < to
        invariant
            from <= i <= to <= parts@.len(),
            all == parts@.map_values(|p: String| p@),
            out@ == join_with(all.subrange(from as int, i as int), sep),
        decreases to - i,
    {
        let ghost next = all.subrange(from as int, i + 1);
        assert(next.drop_last() =~= all.subrange(from as int, i as int));
        if i > from {
            push_char(&mut out, sep);
        } else {
            assert(next.len() == 1);
        }
        out.append(parts[i].as_str());
        i = i + 1;
    }
    out
}

impl DirPath {
    /// The text of the first `k` components under the root.
    pub fn prefix_text(&self, k: usize) -> (r: String)
        requires
            k <= self.parts@.len(),
        ensures
            r@ == path_text(prefix_path(self@, k as int)),
    {
        let mut out = self.root.clone();
        let tail = join_range(&self.parts, 0, k, self.sep);
        out.append(tail.as_str());
        out
    }

    /// The path made of the root and the first `k` components.
    pub fn prefix(&self, k: usize) -> (r: DirPath)
        requires
            k <= self.parts@.len(),
        ensures
            r@ == prefix_path(self@, k as int),
    {
        let mut parts: Vec<String> = Vec::new();
        let mut i: usize = 0;
        while i < k
            invariant
                k <= self.parts@.len(),
                i <= k,
                parts@.len() == i,
                forall|j: int| 0 <= j < i ==> parts@[j]@ == self.parts@[j]@,
            decreases k - i,
        {
            parts.push(self.parts[i].clone());
            i = i + 1;
        }
        assert(parts@.map_values(|p: String| p@) =~= self@.parts.subrange(0, k as int));
        let r = DirPath { root: self.root.clone(), parts, sep: self.sep };
        assert(r@.parts =~= prefix_path(self@, k as int).parts);
        r
    }

    /// Whether the first `k` components under the root make up `other`.
    pub fn prefix_equals(&self, k: usize, other: &DirPath) -> (r: bool)
        requires
            k <= self.parts@.len(),
        ensures
            r == same_place(prefix_path(self@, k as int), other@),
    {
        if !(self.root == other.root) {
            return false;
        }
        if k != other.parts.len() {
            assert(prefix_path(self@, k as int).parts.len() != other@.parts.len());
            return false;
        }
        let mut i: usize = 0;
        while i < k
            invariant
                k <= self.parts@.len(),
                k == other.parts@.len(),
                i <= k,
                forall|j: int| 0 <= j < i ==> self.parts@[j]@ == other.parts@[j]@,
            decreases k - i,
        {
            if !(self.parts[i] == other.parts[i]) {
                assert(prefix_path(self@, k as int).parts[i as int] != other@.parts[i as int]);
                return false;
            }
            i = i + 1;
        }
        assert(prefix_path(self@, k as int).parts =~= other@.parts);
        true
    }

    /// Whether `base` is a prefix of this path.
    pub fn starts_with(&self, base: &DirPath) -> (r: bool)
        ensures
            r == strip_base(self@, base@) is Some,
    {
        if base.parts.len() > self.parts.len() {
            return false;
        }
        let r = self.prefix_equals(base.parts.len(), base);
        r
    }
}

/// The text of a path: its root, then its components joined with `/`.
pub fn normalize_path(path: &DirPath) -> (r: String)
    ensures
        r@ == path_text(path@),
{
    let r = path.prefix_text(path.parts.len());
    assert(prefix_path(path@, path.parts@.len() as int).parts =~= path@.parts);
    r
}

/// The name of the store file kept in each library root.
pub const DB_FILE_NAME: &'static str = "anime-manager.sqlite";

/// The path of the store file of the library at `base_dir`.
pub fn db_path(base_dir: &DirPath) -> (r: DirPath)
    ensures
        r@.root == base_dir@.root,
        r@.parts == base_dir@.parts.push(DB_FILE_NAME@),
        r@.sep == base_dir@.sep,
{
    let mut r = base_dir.prefix(base_dir.parts.len());
    assert(r@.parts =~= base_dir@.parts);
    let name = String::from_str(DB_FILE_NAME);
    let ghost before = r.parts@;
    r.parts.push(name);
    assert(r.parts@ == before.push(name));
    assert(r@.parts =~= base_dir@.parts.push(DB_FILE_NAME@));
    r
}

} // verus!
