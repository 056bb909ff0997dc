//! Reading the index: listing with filters, finding an artifact by its id
//! or a prefix of it, and the warehouse's statistics.

use vstd::prelude::*;
use vstd::string::*;

use crate::model::{views, Artifact, ArtifactView, HarborError, Index};
use crate::text::{
    lemma_bytes_lt_strict, opt_text, starts_with, text_compare, text_eq, text_lt, text_starts_with,
    TextOrder,
};

verus! {

/// `a` passes the filters: its commit begins with `commit`, and its tag is `tag`,
/// where those are given.
pub open spec fn listed(a: ArtifactView, commit: Option<Seq<char>>, tag: Option<Seq<char>>) -> bool {
    &&& (commit matches Some(c) ==> starts_with(a.commit, c))
    &&& (tag matches Some(t) ==> a.tag == t)
}

/// The artifacts of `s` that pass the filters, in their order.
pub open spec fn listing(s: Seq<ArtifactView>, commit: Option<Seq<char>>, tag: Option<Seq<char>>) -> Seq<ArtifactView> {
    s.filter(|a: ArtifactView| listed(a, commit, tag))
}

/// The artifacts of the index whose commit begins with `commit_filter` and
/// whose tag is `tag_filter`, where those are given, in the order of storing.
pub fn list(index: &Index, commit_filter: Option<&str>, tag_filter: Option<&str>) -> (r: Vec<Artifact>)
    ensures
        views(r@) == listing(index@, opt_text(commit_filter), opt_text(tag_filter)),
{
    let ghost cf = opt_text(commit_filter);
    let ghost tf = opt_text(tag_filter);
    let ghost pred = |a: ArtifactView| listed(a, cf, tf);
    let mut r: Vec<Artifact> = Vec::new();
    let mut i: usize = 0;
    while i < index.artifacts.len()
        invariant
            i <= index@.len(),
            cf == opt_text(commit_filter),
            tf == opt_text(tag_filter),
            pred == (|a: ArtifactView| listed(a, cf, tf)),
            views(r@) == index@.take(i as int).filter(pred),
        decreases index@.len() - i,
    {
        let a = &index.artifacts[i];
        let commit_ok = match commit_filter {
            Some(c) => text_starts_with(a.commit.as_str(), c),
            None => true,
        };
        let tag_ok = match tag_filter {
            Some(t) => text_eq(a.tag.as_str(), t),
            None => true,
        };
        proof {
            reveal_with_fuel(Seq::<_>::filter, 1);
            assert(index@.take(i + 1).drop_last() =~= index@.take(i as int));
            assert(index@[i as int] == a@);
        }
        if commit_ok && tag_ok {
            r.push(a.duplicate());
        }
        i = i + 1;
        assert(views(r@) =~= index@.take(i as int).filter(pred));
    }
    assert(index@.take(i as int) =~= index@);
    r
}

/// `a` answers a request for `id`: its id is `id` or begins with it.
pub open spec fn found_by(a: ArtifactView, id: Seq<char>) -> bool {
    a.id == id || starts_with(a.id, id)
}

/// The first position at or after `k` of an artifact that answers `id`.
pub open spec fn first_match_from(s: Seq<ArtifactView>, id: Seq<char>, k: int) -> Option<int>
    decreases s.len() - k,
{
    if k < 0 || k >= s.len() {
        None
    } else if found_by(s[k], id) {
        Some(k)
    } else {
        first_match_from(s, id, k + 1)
    }
}

/// The first position of an artifact that answers `id`.
pub open spec fn first_match(s: Seq<ArtifactView>, id: Seq<char>) -> Option<int> {
    first_match_from(s, id, 0)
}

/// What `first_match_from` finds: the first answer at or after `k`, or that there is none.
pub proof fn lemma_first_match_from(s: Seq<ArtifactView>, id: Seq<char>, k: int)
    requires
        0 <= k <= s.len(),
    ensures
        first_match_from(s, id, k) matches Some(i) ==> {
            &&& k <= i < s.len()
            &&& found_by(s[i], id)
            &&& forall|j: int| k <= j < i ==> !found_by(s[j], id)
        },
        first_match_from(s, id, k) is None ==> forall|j: int| k <= j < s.len() ==> !found_by(s[j], id),
    decreases s.len() - k,
{
    if k < s.len() && !found_by(s[k], id) {
        lemma_first_match_from(s, id, k + 1);
    }
}

/// The message that answers a request for an id that nothing answers.
pub open spec fn not_found_message(id: Seq<char>) -> Seq<char> {
    "Artifact not found: "@ + id
}

/// The first artifact whose id is `id` or begins with it; a validation error
/// where there is none.
pub fn show(index: &Index, id: &str) -> (r: Result<Artifact, HarborError>)
    ensures
        match first_match(index@, id@) {
            Some(i) => r matches Ok(a) && a@ == index@[i],
            None => r matches Err(e) && e.is_validation(not_found_message(id@)),
        },
{
    let mut i: usize = 0;
    while i < index.artifacts.len()
        invariant
            i <= index@.len(),
            first_match(index@, id@) == first_match_from(index@, id@, i as int),
        decreases index@.len() - i,
    {
        let a = &index.artifacts[i];
        let equal = text_eq(a.id.as_str(), id);
        let prefix = text_starts_with(a.id.as_str(), id);
        assert(index@[i as int] == a@);
        if equal || prefix {
            return Ok(a.duplicate());
        }
        i = i + 1;
    }
    let mut message = String::from_str("Artifact not found: ");
    message.append(id);
    Err(HarborError::Validation(message))
}

/// The sum of the sizes of the artifacts of `s`.
pub open spec fn total_size(s: Seq<ArtifactView>) -> nat
    decreases s.len(),
{
    if s.len() == 0 {
        0
    } else {
        total_size(s.drop_last()) + s.last().size_bytes as nat
    }
}

/// The tags that occur in `s`.
pub open spec fn tags_of(s: Seq<ArtifactView>) -> Set<Seq<char>> {
    s.map_values(|a: ArtifactView| a.tag).to_set()
}

/// The commits that occur in `s`.
pub open spec fn commits_of(s: Seq<ArtifactView>) -> Set<Seq<char>> {
    s.map_values(|a: ArtifactView| a.commit).to_set()
}

/// The texts of a run of strings.
pub open spec fn texts(v: Seq<String>) -> Seq<Seq<char>> {
    v.map_values(|s: String| s@)
}

/// Each text comes before every later one in the order of `str`.
pub open spec fn strictly_sorted(t: Seq<Seq<char>>) -> bool {
    forall|i: int, j: int| 0 <= i < j < t.len() ==> text_lt(t[i], t[j])
}

/// Counts over a warehouse.
#[derive(Debug)]
pub struct WarehouseStats {
    pub artifact_count: usize,
    pub total_size_bytes: u64,
    pub unique_tags: usize,
    pub unique_commits: usize,
    pub tags: Vec<String>,
}

/// Puts `x` into its place in a strictly sorted run of texts, unless it is there.
fn insert_sorted(v: &mut Vec<String>, x: String)
    requires
        strictly_sorted(texts(old(v)@)),
    ensures
        strictly_sorted(texts(final(v)@)),
        texts(final(v)@).to_set() == texts(old(v)@).to_set().insert(x@),
{
    let ghost t = texts(v@);
    let mut i: usize = 0;
    loop
        invariant
            i <= v@.len(),
            v@ == old(v)@,
            t == texts(v@),
            strictly_sorted(t),
            forall|j: int| 0 <= j < i ==> text_lt(t[j], x@),
        ensures
            i <= v@.len(),
            v@ == old(v)@,
            forall|j: int| 0 <= j < i ==> text_lt(t[j], x@),
            i == v@.len() || text_lt(x@, t[i as int]),
        decreases v@.len() - i,
    {
        if i == v.len() {
            break;
        }
        match text_compare(v[i].as_str(), x.as_str()) {
            TextOrder::Less => {
                i = i + 1;
            },
            TextOrder::Equal => {
                assert(t.to_set().insert(x@) =~= t.to_set()) by {
                    assert(t[i as int] == x@);
                }
                return;
            },
            TextOrder::Greater => {
                break;
            },
        }
    }
    let ghost xv = x@;
    v.insert(i, x);
    let ghost n = texts(v@);
    assert(n =~= t.insert(i as int, xv));
    assert forall|p: int, q: int| 0 <= p < q < n.len() implies text_lt(n[p], n[q]) by {
        if q == i {
            assert(n[p] == t[p]);
            assert(n[q] == xv);
        } else if p == i {
            assert(n[p] == xv);
            assert(n[q] == t[q - 1]);
            assert(i < t.len());
            assert(text_lt(xv, t[i as int]));
            if q - 1 > i {
                assert(text_lt(t[i as int], t[q - 1]));
                lemma_bytes_lt_strict(
                    vstd::utf8::encode_utf8(xv),
                    vstd::utf8::encode_utf8(t[i as int]),
                    vstd::utf8::encode_utf8(t[q - 1]),
                );
            }
        } else {
            let a = if p < i { p } else { p - 1 };
            let b = if q < i { q } else { q - 1 };
            assert(n[p] == t[a]);
            assert(n[q] == t[b]);
            assert(a < b);
            assert(text_lt(t[a], t[b]));
        }
    }
    assert forall|y: Seq<char>| n.to_set().contains(y) <==> t.to_set().insert(xv).contains(y) by {
        if n.contains(y) {
            let k = choose|k: int| 0 <= k < n.len() && n[k] == y;
            if k < i {
                assert(t[k] == y);
            } else if k > i {
                assert(t[k - 1] == y);
            }
        }
        if t.contains(y) {
            let k = choose|k: int| 0 <= k < t.len() && t[k] == y;
            if k < i {
                assert(n[k] == y);
            } else {
                assert(n[k + 1] == y);
            }
        }
        if y == xv {
            assert(n[i as int] == y);
        }
    }
    assert(n.to_set() =~= t.to_set().insert(xv));
}

/// The distinct texts of `items`, in the order of `str`.
pub fn sorted_distinct(items: &Vec<String>) -> (r: Vec<String>)
    ensures
        strictly_sorted(texts(r@)),
        texts(r@).to_set() == texts(items@).to_set(),
{
    let mut r: Vec<String> = Vec::new();
    let mut i: usize = 0;
    assert(texts(r@).to_set() =~= texts(items@.take(0)).to_set());
    while i < items.len()
        invariant
            i <= items@.len(),
            strictly_sorted(texts(r@)),
            texts(r@).to_set() == texts(items@.take(i as int)).to_set(),
        decreases items@.len() - i,
    {
        let ghost before = texts(items@.take(i as int));
        insert_sorted(&mut r, items[i].clone());
        i = i + 1;
        let ghost after = texts(items@.take(i as int));
        assert(after =~= before.push(items@[i - 1]@));
        assert(after.to_set() =~= before.to_set().insert(items@[i - 1]@)) by {
            assert forall|y: Seq<char>| after.contains(y) <==> before.contains(y) || y == items@[i - 1]@ by {
                if after.contains(y) {
                    let k = choose|k: int| 0 <= k < after.len() && after[k] == y;
                    if k < before.len() {
                        assert(before[k] == y);
                    }
                }
                if before.contains(y) {
                    let k = choose|k: int| 0 <= k < before.len() && before[k] == y;
                    assert(after[k] == y);
                }
                if y == items@[i - 1]@ {
                    assert(after[i - 1] == y);
                }
            }
        }
    }
    assert(items@.take(i as int) =~= items@);
    r
}

/// A strictly sorted run of texts holds as many texts as it has distinct ones.
proof fn lemma_sorted_count(t: Seq<Seq<char>>)
    requires
        strictly_sorted(t),
    ensures
        t.len() == t.to_set().len(),
{
    assert forall|i: int, j: int| 0 <= i < t.len() && 0 <= j < t.len() && i != j implies t[i] != t[j] by {
        lemma_bytes_lt_strict(vstd::utf8::encode_utf8(t[i]), vstd::utf8::encode_utf8(t[i]), vstd::utf8::encode_utf8(t[i]));
        if i < j {
            assert(text_lt(t[i], t[j]));
        } else {
            assert(text_lt(t[j], t[i]));
        }
    }
    t.unique_seq_to_set();
}

/// The counts of the warehouse whose index is `index`: its artifacts, their
/// total size, its distinct tags (listed in the order of `str`) and its
/// distinct commits.
pub fn stats(index: &Index) -> (r: WarehouseStats)
    requires
        total_size(index@) <= u64::MAX,
    ensures
        r.artifact_count == index@.len(),
        r.total_size_bytes == total_size(index@),
        strictly_sorted(texts(r.tags@)),
        texts(r.tags@).to_set() == tags_of(index@),
        r.unique_tags == tags_of(index@).len(),
        r.unique_commits == commits_of(index@).len(),
{
    let mut total: u64 = 0;
    let mut tags: Vec<String> = Vec::new();
    let mut commits: Vec<String> = Vec::new();
    let mut i: usize = 0;
    while i < index.artifacts.len()
        invariant
            i <= index@.len(),
            total_size(index@) <= u64::MAX,
            total == total_size(index@.take(i as int)),
            texts(tags@) == index@.take(i as int).map_values(|a: ArtifactView| a.tag),
            texts(commits@) == index@.take(i as int).map_values(|a: ArtifactView| a.commit),
        decreases index@.len() - i,
    {
        let a = &index.artifacts[i];
        assert(index@[i as int] == a@);
        assert(index@.take(i + 1).drop_last() =~= index@.take(i as int));
        proof {
            lemma_total_size_prefix(index@, i + 1);
        }
        total = total + a.size_bytes;
        let tag = a.tag.clone();
        let commit = a.commit.clone();
        let ghost old_tags = tags@;
        let ghost old_commits = commits@;
        tags.push(tag);
        commits.push(commit);
        assert(texts(tags@) =~= texts(old_tags).push(a@.tag));
        assert(texts(commits@) =~= texts(old_commits).push(a@.commit));
        assert(index@.take(i + 1).map_values(|a: ArtifactView| a.tag) =~= index@.take(i as int).map_values(|a: ArtifactView| a.tag).push(a@.tag));
        assert(index@.take(i + 1).map_values(|a: ArtifactView| a.commit) =~= index@.take(i as int).map_values(|a: ArtifactView| a.commit).push(a@.commit));
        i = i + 1;
    }
    assert(index@.take(i as int) =~= index@);
    let tags = sorted_distinct(&tags);
    let commits = sorted_distinct(&commits);
    proof {
        lemma_sorted_count(texts(tags@));
        lemma_sorted_count(texts(commits@));
    }
    WarehouseStats {
        artifact_count: index.artifacts.len(),
        total_size_bytes: total,
        unique_tags: tags.len(),
        unique_commits: commits.len(),
        tags,
    }
}

/// A prefix of a run never weighs more than the whole run.
proof fn lemma_total_size_prefix(s: Seq<ArtifactView>, k: int)
    requires
        0 <= k <= s.len(),
    ensures
        total_size(s.take(k)) <= total_size(s),
    decreases s.len(),
{
    if k < s.len() {
        assert(s.drop_last().take(k) =~= s.take(k));
        lemma_total_size_prefix(s.drop_last(), k);
    } else {
        assert(s.take(k) =~= s);
    }
}

} // verus!
