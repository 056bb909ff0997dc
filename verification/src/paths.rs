//! Where a warehouse keeps its files, computed on Unix paths as raw bytes.

use vstd::prelude::*;
use vstd::utf8::*;

use crate::text::{lossy_text, text_from_utf8_lossy};

verus! {

/// The path separator, `/`.
pub open spec fn sep() -> u8 {
    47u8
}

/// `base` joined with `part` as `Path::join` does on Unix: an absolute `part`
/// replaces `base`; otherwise a separator is put between them unless `base`
/// is empty or already ends in one.
pub open spec fn joined(base: Seq<u8>, part: Seq<u8>) -> Seq<u8> {
    if part.len() > 0 && part[0] == sep() {
        part
    } else if base.len() > 0 && base.last() != sep() {
        base + seq![sep()] + part
    } else {
        base + part
    }
}

/// Joins `part` onto `base`, as `Path::join` does on Unix.
pub fn join_path(base: &[u8], part: &[u8]) -> (r: Vec<u8>)
    ensures
        r@ == joined(base@, part@),
{
    let mut r: Vec<u8> = Vec::new();
    let absolute = part.len() > 0 && part[0] == 47u8;
    if !absolute {
        let mut i: usize = 0;
        while i < base.len()
            invariant
                i <= base@.len(),
                r@ == base@.take(i as int),
            decreases base@.len() - i,
        {
            r.push(base[i]);
            i = i + 1;
            assert(r@ =~= base@.take(i as int));
        }
        assert(base@.take(i as int) =~= base@);
        if base.len() > 0 && base[base.len() - 1] != 47u8 {
            r.push(47u8);
        }
    }
    let ghost start = r@;
    let mut j: usize = 0;
    while j < part.len()
        invariant
            j <= part@.len(),
            r@ == start + part@.take(j as int),
        decreases part@.len() - j,
    {
        r.push(part[j]);
        j = j + 1;
        assert(r@ =~= start + part@.take(j as int));
    }
    assert(part@.take(j as int) =~= part@);
    assert(r@ =~= joined(base@, part@));
    r
}

/// The index of the last separator in `p`, or -1 where there is none.
pub open spec fn last_sep(p: Seq<u8>) -> int
    decreases p.len(),
{
    if p.len() == 0 {
        -1
    } else if p.last() == sep() {
        p.len() - 1
    } else {
        last_sep(p.drop_last())
    }
}

/// The bytes `.`.
pub open spec fn cur_dir() -> Seq<u8> {
    seq![46u8]
}

/// The bytes `..`.
pub open spec fn parent_dir() -> Seq<u8> {
    seq![46u8, 46u8]
}

/// The last component of `p` as `Path::file_name` gives it on Unix:
/// empty and `.` components are passed over, and there is none where
/// nothing is left, or where what is left ends in `..`.
pub open spec fn file_name(p: Seq<u8>) -> Option<Seq<u8>>
    decreases p.len(),
{
    if p.len() == 0 {
        None
    } else {
        let i = last_sep(p);
        proof {
            lemma_last_sep_bounds(p);
        }
        let seg = p.subrange(i + 1, p.len() as int);
        if seg.len() == 0 || seg == cur_dir() {
            if i < 0 {
                None
            } else {
                proof {
                    lemma_last_sep_bounds(p);
                }
                file_name(p.take(i))
            }
        } else if seg == parent_dir() {
            None
        } else {
            Some(seg)
        }
    }
}

/// Where the last separator of `p` can stand.
pub proof fn lemma_last_sep_bounds(p: Seq<u8>)
    ensures
        -1 <= last_sep(p) < p.len(),
        last_sep(p) >= 0 ==> p[last_sep(p)] == sep(),
        forall|k: int| last_sep(p) < k < p.len() ==> p[k] != sep(),
    decreases p.len(),
{
    if p.len() > 0 && p.last() != sep() {
        let q = p.drop_last();
        lemma_last_sep_bounds(q);
        assert forall|k: int| last_sep(p) < k < p.len() implies p[k] != sep() by {
            if k < p.len() - 1 {
                assert(q[k] == p[k]);
            }
        }
    }
}

/// One past the last separator among the first `end` bytes of `p` (0 where there is none).
fn segment_start(p: &[u8], end: usize) -> (j: usize)
    requires
        end <= p@.len(),
    ensures
        j as int - 1 == last_sep(p@.take(end as int)),
        j <= end,
{
    let mut j = end;
    while j > 0 && p[j - 1] != 47u8
        invariant
            j <= end <= p@.len(),
            last_sep(p@.take(end as int)) == last_sep(p@.take(j as int)),
        decreases j,
    {
        assert(p@.take(j as int).drop_last() =~= p@.take(j - 1));
        j = j - 1;
    }
    j
}

/// The last component of the path `p`, as `Path::file_name` finds it on Unix.
pub fn path_file_name(p: &[u8]) -> (r: Option<Vec<u8>>)
    ensures
        r matches Some(v) ==> file_name(p@) == Some(v@),
        r is None ==> file_name(p@) is None,
{
    let mut end = p.len();
    assert(p@.take(end as int) =~= p@);
    loop
        invariant
            end <= p@.len(),
            file_name(p@) == file_name(p@.take(end as int)),
        decreases end,
    {
        if end == 0 {
            return None;
        }
        let j = segment_start(p, end);
        let ghost q = p@.take(end as int);
        proof {
            lemma_last_sep_bounds(q);
        }
        let len = end - j;
        let is_cur = len == 1 && p[j] == 46u8;
        let is_parent = len == 2 && p[j] == 46u8 && p[j + 1] == 46u8;
        let ghost seg = q.subrange(j as int, end as int);
        assert(seg.len() == len);
        if len == 0 || is_cur {
            proof {
                if is_cur {
                    assert(seg =~= cur_dir());
                }
            }
            if j == 0 {
                return None;
            }
            assert(q.take(j - 1) =~= p@.take(j - 1));
            end = j - 1;
        } else {
            proof {
                if seg == cur_dir() {
                    assert(seg[0] == p@[j as int]);
                }
            }
            if is_parent {
                assert(seg =~= parent_dir());
                return None;
            }
            proof {
                if seg == parent_dir() {
                    assert(seg[0] == p@[j as int]);
                    assert(seg[1] == p@[j + 1]);
                }
            }
            let mut v: Vec<u8> = Vec::new();
            let mut k = j;
            while k < end
                invariant
                    j <= k <= end <= p@.len(),
                    v@ == p@.subrange(j as int, k as int),
                decreases end - k,
            {
                v.push(p[k]);
                k = k + 1;
                assert(v@ =~= p@.subrange(j as int, k as int));
            }
            assert(v@ =~= seg);
            return Some(v);
        }
    }
}

/// The directory of a warehouse inside its repository, `.harbor`.
pub open spec fn harbor_dir() -> Seq<u8> {
    seq![46u8, 104u8, 97u8, 114u8, 98u8, 111u8, 114u8]
}

/// The name of the index file, `index.json`.
pub open spec fn index_file() -> Seq<u8> {
    seq![105u8, 110u8, 100u8, 101u8, 120u8, 46u8, 106u8, 115u8, 111u8, 110u8]
}

/// The name of the directory of blobs, `blobs`.
pub open spec fn blobs_dir_name() -> Seq<u8> {
    seq![98u8, 108u8, 111u8, 98u8, 115u8]
}

/// The name of the ignore file, `.gitignore`.
pub open spec fn gitignore_name() -> Seq<u8> {
    seq![46u8, 103u8, 105u8, 116u8, 105u8, 103u8, 110u8, 111u8, 114u8, 101u8]
}

/// The storage root of the warehouse of `repo`.
pub fn harbor_root(repo: &[u8]) -> (r: Vec<u8>)
    ensures
        r@ == joined(repo@, harbor_dir()),
{
    let name: Vec<u8> = vec![46u8, 104u8, 97u8, 114u8, 98u8, 111u8, 114u8];
    assert(name@ =~= harbor_dir());
    join_path(repo, name.as_slice())
}

/// The path of the index file of the warehouse of `repo`.
pub fn index_path(repo: &[u8]) -> (r: Vec<u8>)
    ensures
        r@ == joined(joined(repo@, harbor_dir()), index_file()),
{
    let root = harbor_root(repo);
    let name: Vec<u8> = vec![105u8, 110u8, 100u8, 101u8, 120u8, 46u8, 106u8, 115u8, 111u8, 110u8];
    assert(name@ =~= index_file());
    join_path(root.as_slice(), name.as_slice())
}

/// The directory that holds the blobs of the warehouse of `repo`.
pub fn blobs_dir(repo: &[u8]) -> (r: Vec<u8>)
    ensures
        r@ == joined(joined(repo@, harbor_dir()), blobs_dir_name()),
{
    let root = harbor_root(repo);
    let name: Vec<u8> = vec![98u8, 108u8, 111u8, 98u8, 115u8];
    assert(name@ =~= blobs_dir_name());
    join_path(root.as_slice(), name.as_slice())
}

/// The ignore file that keeps the warehouse of `repo` out of git.
pub fn gitignore_path(repo: &[u8]) -> (r: Vec<u8>)
    ensures
        r@ == joined(joined(repo@, harbor_dir()), gitignore_name()),
{
    let root = harbor_root(repo);
    let name: Vec<u8> = vec![46u8, 103u8, 105u8, 116u8, 105u8, 103u8, 110u8, 111u8, 114u8, 101u8];
    assert(name@ =~= gitignore_name());
    join_path(root.as_slice(), name.as_slice())
}

/// The path of the blob of the artifact `id` in the warehouse of `repo`.
pub fn blob_path(repo: &[u8], id: &str) -> (r: Vec<u8>)
    ensures
        r@ == joined(joined(joined(repo@, harbor_dir()), blobs_dir_name()), encode_utf8(id@)),
{
    let dir = blobs_dir(repo);
    join_path(dir.as_slice(), id.as_bytes())
}

/// The name of a repository: the last component of its path, read as UTF-8
/// with invalid sequences replaced, or `unknown` where the path has none.
pub open spec fn repo_name_of(repo: Seq<u8>) -> Seq<char> {
    match file_name(repo) {
        Some(n) => lossy_text(n),
        None => seq!['u', 'n', 'k', 'n', 'o', 'w', 'n'],
    }
}

/// The name of the repository at `repo`.
pub fn repo_name(repo: &[u8]) -> (r: String)
    ensures
        r@ == repo_name_of(repo@),
{
    match path_file_name(repo) {
        Some(n) => text_from_utf8_lossy(n.as_slice()),
        None => {
            let r = String::from_str("unknown");
            proof {
                reveal_strlit("unknown");
            }
            assert(r@ =~= seq!['u', 'n', 'k', 'n', 'o', 'w', 'n']);
            r
        }
    }
}

} // verus!
