//! The content of a model that is a directory: every file with its path and its
//! length, in the order of the paths, so that any change to any file changes it.

use vstd::multiset::Multiset;
use vstd::prelude::*;

use crate::bytes::{
    le_bytes, lemma_le_bytes_len, lemma_le_round_trip, lemma_pow256_values, put_bytes, put_le,
};

verus! {

/// A file of a model: its path below the model, with slashes, and its content.
#[derive(Debug, PartialEq, Eq)]
pub struct ModelFile {
    pub path: Vec<u8>,
    pub bytes: Vec<u8>,
}

/// The model of a [`ModelFile`].
#[verifier::ext_equal]
pub struct FileV {
    pub path: Seq<u8>,
    pub bytes: Seq<u8>,
}

impl View for ModelFile {
    type V = FileV;

    open spec fn view(&self) -> FileV {
        FileV { path: self.path@, bytes: self.bytes@ }
    }
}

/// The models of a list of files.
pub open spec fn files_of(s: Seq<ModelFile>) -> Seq<FileV> {
    s.map_values(|f: ModelFile| f@)
}

/// The rank of a byte of a path: what separates the parts comes first, so that
/// paths are ordered part by part.
pub open spec fn rank(b: u8) -> int {
    if b == 47 {
        -1
    } else {
        b as int
    }
}

/// Whether path `a` does not come behind path `b`.
pub open spec fn path_le(a: Seq<u8>, b: Seq<u8>) -> bool
    decreases a.len(),
{
    if a.len() == 0 {
        true
    } else if b.len() == 0 {
        false
    } else if a[0] == b[0] {
        path_le(a.skip(1), b.skip(1))
    } else {
        rank(a[0]) < rank(b[0])
    }
}

/// Of two paths one does not come behind the other.
pub proof fn lemma_path_le_total(a: Seq<u8>, b: Seq<u8>)
    ensures
        path_le(a, b) || path_le(b, a),
        path_le(a, a),
        path_le(a, b) && path_le(b, a) ==> a == b,
    decreases a.len(),
{
    if a.len() > 0 {
        lemma_path_le_total(a.skip(1), b.skip(1));
        if b.len() > 0 && a[0] == b[0] && path_le(a, b) && path_le(b, a) {
            assert(a =~= seq![a[0]] + a.skip(1));
            assert(b =~= seq![b[0]] + b.skip(1));
        }
    } else if b.len() == 0 {
        assert(a =~= b);
    }
}

/// The order of paths is transitive.
pub proof fn lemma_path_le_trans(a: Seq<u8>, b: Seq<u8>, c: Seq<u8>)
    requires
        path_le(a, b),
        path_le(b, c),
    ensures
        path_le(a, c),
    decreases a.len(),
{
    if a.len() > 0 && b.len() > 0 && c.len() > 0 && a[0] == b[0] && b[0] == c[0] {
        lemma_path_le_trans(a.skip(1), b.skip(1), c.skip(1));
    }
}

/// Whether files stand in the order of their paths.
pub open spec fn in_order(s: Seq<FileV>) -> bool {
    forall|i: int, j: int| 0 <= i < j < s.len() ==> path_le(#[trigger] s[i].path, #[trigger] s[j].path)
}

fn path_rank(b: u8) -> (r: i16)
    ensures
        r == rank(b),
{
    if b == 47 {
        -1
    } else {
        b as i16
    }
}

/// Whether path `a` does not come behind path `b`.
fn path_not_behind(a: &Vec<u8>, b: &Vec<u8>) -> (r: bool)
    ensures
        r == path_le(a@, b@),
{
    let mut i: usize = 0;
    proof {
        assert(a@.skip(0) =~= a@);
        assert(b@.skip(0) =~= b@);
    }
    while i < a.len() && i < b.len()
        invariant
            i <= a@.len(),
            i <= b@.len(),
            path_le(a@, b@) == path_le(a@.skip(i as int), b@.skip(i as int)),
        decreases a.len() - i,
    {
        proof {
            assert(a@.skip(i as int).skip(1) =~= a@.skip(i + 1));
            assert(b@.skip(i as int).skip(1) =~= b@.skip(i + 1));
        }
        if a[i] != b[i] {
            return path_rank(a[i]) < path_rank(b[i]);
        }
        i += 1;
    }
    i >= a.len()
}

/// Puts a file where it belongs.
fn insert_file(r: &mut Vec<ModelFile>, f: ModelFile)
    requires
        in_order(files_of(old(r)@)),
    ensures
        in_order(files_of(final(r)@)),
        files_of(final(r)@).to_multiset() == files_of(old(r)@).to_multiset().insert(f@),
{
    let ghost all = files_of(r@);
    let mut k: usize = 0;
    while k < r.len() && path_not_behind(&r[k].path, &f.path)
        invariant
            k <= r@.len(),
            all == files_of(r@),
            forall|i: int| 0 <= i < k ==> path_le(#[trigger] all[i].path, f@.path),
        decreases r.len() - k,
    {
        assert(all[k as int] == r@[k as int]@);
        k += 1;
    }
    let ghost new = all.insert(k as int, f@);
    proof {
        if k < all.len() {
            assert(all[k as int] == r@[k as int]@);
            lemma_path_le_total(all[k as int].path, f@.path);
        }
        assert forall|i: int, j: int| 0 <= i < j < new.len() implies path_le(
            #[trigger] new[i].path,
            #[trigger] new[j].path,
        ) by {
            if j < k {
                assert(path_le(all[i].path, all[j].path));
            } else if j == k {
                assert(path_le(all[i].path, f@.path));
            } else {
                assert(new[j] == all[j - 1]);
                if i < k {
                    assert(path_le(all[i].path, all[j - 1].path));
                } else if i == k {
                    if k < j - 1 {
                        assert(path_le(all[k as int].path, all[j - 1].path));
                        lemma_path_le_trans(f@.path, all[k as int].path, all[j - 1].path);
                    }
                } else {
                    assert(new[i] == all[i - 1]);
                    assert(path_le(all[i - 1].path, all[j - 1].path));
                }
            }
        }
        vstd::seq_lib::to_multiset_insert(all, k as int, f@);
    }
    r.insert(k, f);
    proof {
        assert(files_of(r@) =~= new);
    }
}

/// The files in the order of their paths.
pub fn sort_files(files: Vec<ModelFile>) -> (r: Vec<ModelFile>)
    ensures
        in_order(files_of(r@)),
        files_of(r@).to_multiset() == files_of(files@).to_multiset(),
{
    let ghost all = files_of(files@);
    let mut rest = files;
    let mut r: Vec<ModelFile> = Vec::new();
    proof {
        assert(files_of(r@) =~= Seq::<FileV>::empty());
        vstd::seq_lib::to_multiset_len(files_of(r@));
        assert(files_of(r@).to_multiset() =~= Multiset::empty());
        assert(files_of(r@).to_multiset().add(files_of(rest@).to_multiset()) =~= all.to_multiset());
    }
    while rest.len() > 0
        invariant
            in_order(files_of(r@)),
            files_of(r@).to_multiset().add(files_of(rest@).to_multiset()) == all.to_multiset(),
        decreases rest.len(),
    {
        let ghost before = files_of(rest@);
        let ghost done = files_of(r@).to_multiset();
        match rest.pop() {
            Some(f) => {
                proof {
                    let left = files_of(rest@);
                    assert(before =~= left.push(f@));
                    vstd::seq_lib::to_multiset_build(left, f@);
                    assert(done.insert(f@).add(left.to_multiset()) =~= done.add(
                        left.to_multiset().insert(f@),
                    ));
                }
                insert_file(&mut r, f);
            },
            None => {},
        }
    }
    proof {
        assert(files_of(rest@) =~= Seq::<FileV>::empty());
        vstd::seq_lib::to_multiset_len(files_of(rest@));
        assert(files_of(r@).to_multiset() =~= all.to_multiset());
    }
    r
}

/// A file as it stands in the content: its path, a zero, its length in eight bytes,
/// and its bytes.
pub open spec fn frame(f: FileV) -> Seq<u8> {
    f.path + seq![0u8] + le_bytes(f.bytes.len(), 8) + f.bytes
}

/// The first `k` files, one behind the other.
pub open spec fn framed(s: Seq<FileV>, k: nat) -> Seq<u8>
    decreases k,
{
    if k == 0 {
        Seq::empty()
    } else {
        framed(s, (k - 1) as nat) + frame(s[k - 1])
    }
}

/// The files, one behind the other.
pub fn frame_files(files: &Vec<ModelFile>) -> (r: Vec<u8>)
    ensures
        r@ == framed(files_of(files@), files@.len()),
{
    let ghost all = files_of(files@);
    let mut r: Vec<u8> = Vec::new();
    let mut i: usize = 0;
    while i < files.len()
        invariant
            i <= files@.len(),
            all == files_of(files@),
            r@ == framed(all, i as nat),
        decreases files.len() - i,
    {
        let f = &files[i];
        let ghost before = r@;
        proof {
            assert(all[i as int] == f@);
        }
        put_bytes(&mut r, f.path.as_slice());
        r.push(0);
        put_le(&mut r, f.bytes.len() as u64, 8);
        put_bytes(&mut r, f.bytes.as_slice());
        i += 1;
        proof {
            assert(r@ =~= before + frame(f@));
        }
    }
    r
}

/// The content of a model that is a directory.
pub fn directory_bytes(files: Vec<ModelFile>) -> (r: Vec<u8>)
    ensures
        exists|s: Seq<FileV>|
            #![trigger framed(s, s.len())]
            in_order(s) && s.to_multiset() == files_of(files@).to_multiset() && r@ == framed(
                s,
                s.len(),
            ),
{
    let s = sort_files(files);
    let r = frame_files(&s);
    proof {
        let v = files_of(s@);
        assert(r@ == framed(v, v.len()));
    }
    r
}

/// Whether a path can stand before a zero.
pub open spec fn plain(f: FileV) -> bool {
    &&& forall|i: int| 0 <= i < f.path.len() ==> #[trigger] f.path[i] != 0
    &&& f.bytes.len() <= u64::MAX
}

/// The framed files from `k` on.
pub open spec fn framed_from(s: Seq<FileV>, k: nat) -> Seq<u8>
    decreases s.len() - k,
{
    if k >= s.len() {
        Seq::empty()
    } else {
        frame(s[k as int]) + framed_from(s, k + 1)
    }
}

proof fn lemma_framed_split(s: Seq<FileV>, k: nat)
    requires
        k <= s.len(),
    ensures
        framed(s, s.len()) == framed(s, k) + framed_from(s, k),
    decreases s.len() - k,
{
    if k < s.len() {
        lemma_framed_split(s, k + 1);
        assert(framed(s, k + 1) + framed_from(s, k + 1) =~= framed(s, k) + framed_from(s, k));
    } else {
        assert(framed(s, k) + framed_from(s, k) =~= framed(s, k));
    }
}

/// A frame can be told from what follows it.
proof fn lemma_frame_prefix(f: FileV, x: Seq<u8>, g: FileV, y: Seq<u8>)
    requires
        plain(f),
        plain(g),
        frame(f) + x == frame(g) + y,
    ensures
        f == g,
        x == y,
{
    let l = frame(f) + x;
    let r = frame(g) + y;
    let n = f.path.len() as int;
    let m = g.path.len() as int;
    // The first zero ends the path.
    assert(l[n] == 0);
    assert(r[m] == 0);
    if n < m {
        assert(r[n] == g.path[n]);
    }
    if m < n {
        assert(l[m] == f.path[m]);
    }
    assert(f.path =~= l.take(n));
    assert(g.path =~= r.take(n));
    let a = f.bytes.len();
    let b = g.bytes.len();
    lemma_le_bytes_len(a, 8);
    lemma_le_bytes_len(b, 8);
    assert(le_bytes(a, 8) =~= l.subrange(n + 1, n + 9));
    assert(le_bytes(b, 8) =~= r.subrange(n + 1, n + 9));
    lemma_pow256_values();
    lemma_le_round_trip(a, 8);
    lemma_le_round_trip(b, 8);
    assert(f.bytes =~= l.subrange(n + 9, n + 9 + a));
    assert(g.bytes =~= r.subrange(n + 9, n + 9 + a));
    assert(x =~= l.skip(n + 9 + a));
    assert(y =~= r.skip(n + 9 + a));
}

/// Different directories have different contents: from the bytes, every path and
/// every file can be told.
pub proof fn law_content_tells_files_apart(s: Seq<FileV>, t: Seq<FileV>)
    requires
        forall|i: int| 0 <= i < s.len() ==> plain(#[trigger] s[i]),
        forall|i: int| 0 <= i < t.len() ==> plain(#[trigger] t[i]),
        framed(s, s.len()) == framed(t, t.len()),
    ensures
        s == t,
{
    lemma_framed_split(s, 0);
    lemma_framed_split(t, 0);
    assert(framed(s, 0) + framed_from(s, 0) =~= framed_from(s, 0));
    assert(framed(t, 0) + framed_from(t, 0) =~= framed_from(t, 0));
    lemma_from_tells(s, t, 0);
}

proof fn lemma_from_tells(s: Seq<FileV>, t: Seq<FileV>, k: nat)
    requires
        k <= s.len(),
        k <= t.len(),
        forall|i: int| 0 <= i < k ==> s[i] == #[trigger] t[i],
        forall|i: int| 0 <= i < s.len() ==> plain(#[trigger] s[i]),
        forall|i: int| 0 <= i < t.len() ==> plain(#[trigger] t[i]),
        framed_from(s, k) == framed_from(t, k),
    ensures
        s == t,
    decreases s.len() - k,
{
    if k < s.len() && k < t.len() {
        lemma_frame_prefix(
            s[k as int],
            framed_from(s, k + 1),
            t[k as int],
            framed_from(t, k + 1),
        );
        lemma_from_tells(s, t, k + 1);
    } else {
        if k < s.len() {
            assert(framed_from(s, k).len() >= frame(s[k as int]).len());
            assert(framed_from(t, k).len() == 0);
        }
        if k < t.len() {
            assert(framed_from(t, k).len() >= frame(t[k as int]).len());
            assert(framed_from(s, k).len() == 0);
        }
        assert(s =~= t);
    }
}

} // verus!
