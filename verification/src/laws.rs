//! What holds of the warehouse across its operations.

use vstd::prelude::*;

use crate::clean::{
    ahead, arranged, count_ahead, expired, lemma_group, lemma_rank_distinct, pick, placed_before, rank, selected,
    unexpired,
};
use crate::model::{earlier, ArtifactView, Timestamp};
use crate::query::{
    commits_of, first_match, first_match_from, found_by, lemma_first_match_from, listed, listing, strictly_sorted, tags_of,
    total_size,
};
use crate::store::{artifact_of, sha256_of};
use crate::text::{byte_prefix, lemma_text_lt_order, splits_at, starts_with, text_lt};

verus! {

proof fn lemma_found_after_push(s: Seq<ArtifactView>, a: ArtifactView, k: int)
    requires
        0 <= k <= s.len(),
    ensures
        first_match_from(s, a.id, k) is None ==> first_match_from(s.push(a), a.id, k) == Some(s.len() as int),
        first_match_from(s, a.id, k) is Some ==> first_match_from(s.push(a), a.id, k) == first_match_from(s, a.id, k),
    decreases s.len() - k,
{
    let t = s.push(a);
    if k == s.len() {
        assert(t[k] == a);
        assert(found_by(a, a.id));
    } else {
        assert(t[k] == s[k]);
        lemma_found_after_push(s, a, k + 1);
    }
}

/// An artifact just added to the index is found by its full id: `show`
/// answers with it, or with an earlier artifact that already answered that id.
pub proof fn law_added_artifact_is_found(s: Seq<ArtifactView>, a: ArtifactView)
    ensures
        first_match(s.push(a), a.id) is Some,
        first_match(s, a.id) is None ==> first_match(s.push(a), a.id) == Some(s.len() as int),
        first_match(s, a.id) is Some ==> first_match(s.push(a), a.id) == first_match(s, a.id),
{
    lemma_found_after_push(s, a, 0);
}

/// `show` answers a request for `id` with the earliest artifact whose id is
/// `id` or begins with it, and refuses it only where there is none.
pub proof fn law_show_answers_with_first_match(s: Seq<ArtifactView>, id: Seq<char>)
    ensures
        first_match(s, id) matches Some(i) ==> {
            &&& 0 <= i < s.len()
            &&& (s[i].id == id || starts_with(s[i].id, id))
            &&& forall|j: int| 0 <= j < i ==> !found_by(#[trigger] s[j], id)
        },
        first_match(s, id) is None ==> forall|j: int| 0 <= j < s.len() ==> !found_by(#[trigger] s[j], id),
{
    lemma_first_match_from(s, id, 0);
}

/// Storage is content-addressed: the id and hash of an artifact depend on its
/// data and commit alone, so the same data stored at the same commit gets the
/// same id whatever its tag, description or time.
pub proof fn law_id_follows_content_and_commit(
    data1: Seq<u8>,
    data2: Seq<u8>,
    commit: Seq<char>,
    repo1: Seq<char>,
    repo2: Seq<char>,
    tag1: Seq<char>,
    tag2: Seq<char>,
    desc1: Option<Seq<char>>,
    desc2: Option<Seq<char>>,
    at1: Timestamp,
    at2: Timestamp,
)
    requires
        data1 == data2,
    ensures
        artifact_of(sha256_of(data1), data1.len() as u64, commit, repo1, tag1, desc1, at1).id
            == artifact_of(sha256_of(data2), data2.len() as u64, commit, repo2, tag2, desc2, at2).id,
        artifact_of(sha256_of(data1), data1.len() as u64, commit, repo1, tag1, desc1, at1).sha256
            == artifact_of(sha256_of(data2), data2.len() as u64, commit, repo2, tag2, desc2, at2).sha256,
{
}

/// Listing without filters gives every artifact of the index, in order.
pub proof fn law_unfiltered_listing_is_everything(s: Seq<ArtifactView>)
    ensures
        listing(s, None, None) == s,
    decreases s.len(),
{
    reveal_with_fuel(Seq::<_>::filter, 1);
    if s.len() > 0 {
        law_unfiltered_listing_is_everything(s.drop_last());
        assert(s.drop_last().push(s.last()) =~= s);
    }
}

/// Adding an artifact adds it at the end of every listing whose filters it
/// passes, and changes no other listing.
pub proof fn law_listing_after_add(
    s: Seq<ArtifactView>,
    a: ArtifactView,
    commit: Option<Seq<char>>,
    tag: Option<Seq<char>>,
)
    ensures
        listing(s.push(a), commit, tag) == if listed(a, commit, tag) {
            listing(s, commit, tag).push(a)
        } else {
            listing(s, commit, tag)
        },
{
    reveal_with_fuel(Seq::<_>::filter, 1);
    assert(s.push(a).drop_last() =~= s);
}

/// Every byte prefix of a text that falls between characters is a prefix
/// that `starts_with` accepts.
pub proof fn law_byte_prefixes_are_prefixes(c: Seq<char>, k: int)
    requires
        splits_at(c, k),
    ensures
        starts_with(c, byte_prefix(c, k)),
{
    let e = vstd::utf8::encode_utf8(c);
    vstd::utf8::encode_utf8_valid_utf8(c);
    vstd::utf8::valid_utf8_split(e, k);
    vstd::utf8::decode_utf8_encode_utf8(e.take(k));
    assert(e.take(k) =~= e.subrange(0, k));
}

/// A newly added artifact ends the unfiltered listing, which is the listing
/// before it with the artifact added, and ends every listing filtered by its
/// tag and by any prefix of its commit (the first `k` bytes, for any `k` that
/// falls between characters), or by its tag alone.
pub proof fn law_added_artifact_is_listed(s: Seq<ArtifactView>, a: ArtifactView, k: int)
    requires
        splits_at(a.commit, k),
    ensures
        listing(s.push(a), None, None) == s.push(a),
        listing(s.push(a), Some(byte_prefix(a.commit, k)), Some(a.tag))
            == listing(s, Some(byte_prefix(a.commit, k)), Some(a.tag)).push(a),
        listing(s.push(a), None, Some(a.tag)) == listing(s, None, Some(a.tag)).push(a),
{
    law_unfiltered_listing_is_everything(s.push(a));
    law_byte_prefixes_are_prefixes(a.commit, k);
    law_listing_after_add(s, a, Some(byte_prefix(a.commit, k)), Some(a.tag));
    law_listing_after_add(s, a, None, Some(a.tag));
}

/// After cleaning with a cutoff, every artifact left was stored at or after
/// it, and every artifact removed for its age was stored before it.
pub proof fn law_cutoff_divides(s: Seq<ArtifactView>, c: Timestamp)
    ensures
        forall|i: int| 0 <= i < unexpired(s, Some(c)).len()
            ==> !earlier(#[trigger] unexpired(s, Some(c))[i].stored_at, c),
        forall|i: int| 0 <= i < expired(s, Some(c)).len()
            ==> earlier(#[trigger] expired(s, Some(c))[i].stored_at, c),
{
    let live = |a: ArtifactView| !earlier(a.stored_at, c);
    let dead = |a: ArtifactView| earlier(a.stored_at, c);
    assert forall|i: int| 0 <= i < s.filter(live).len() implies live(#[trigger] s.filter(live)[i]) by {
        s.lemma_filter_pred(live, i);
    }
    assert forall|i: int| 0 <= i < s.filter(dead).len() implies dead(#[trigger] s.filter(dead)[i]) by {
        s.lemma_filter_pred(dead, i);
    }
}

/// Keeping `n` per tag keeps the newest: of two artifacts of one tag, one
/// kept and one removed, the kept one was stored later, or at the same
/// instant and earlier in the index.
pub proof fn law_kept_are_newest(t: Seq<ArtifactView>, n: nat, i: int, j: int)
    requires
        0 <= i < t.len(),
        0 <= j < t.len(),
        t[i].tag == t[j].tag,
        rank(t, i) < n,
        rank(t, j) >= n,
    ensures
        ahead(t, i, j),
        earlier(t[j].stored_at, t[i].stored_at) || (t[i].stored_at == t[j].stored_at && i < j),
{
    assert(i != j);
    lemma_rank_distinct(t, i, j);
}

/// The positions among the first `m` of `idx` whose artifact has the tag `tag`.
pub open spec fn tagged_positions(t: Seq<ArtifactView>, idx: Seq<int>, tag: Seq<char>, m: int) -> Set<int> {
    Set::new(|p: int| 0 <= p < m && t[idx[p]].tag == tag)
}

proof fn lemma_tagged_count(t: Seq<ArtifactView>, idx: Seq<int>, tag: Seq<char>, m: int)
    requires
        0 <= m <= idx.len(),
    ensures
        tagged_positions(t, idx, tag, m).finite(),
        pick(t, idx.take(m)).filter(|a: ArtifactView| a.tag == tag).len()
            == tagged_positions(t, idx, tag, m).len(),
    decreases m,
{
    reveal_with_fuel(Seq::<_>::filter, 1);
    let f = |a: ArtifactView| a.tag == tag;
    if m == 0 {
        assert(tagged_positions(t, idx, tag, 0) =~= Set::<int>::empty());
        assert(pick(t, idx.take(0)) =~= Seq::<ArtifactView>::empty());
    } else {
        lemma_tagged_count(t, idx, tag, m - 1);
        let q = pick(t, idx.take(m));
        assert(q.drop_last() =~= pick(t, idx.take(m - 1)));
        assert(q.last() == t[idx[m - 1]]);
        if t[idx[m - 1]].tag == tag {
            assert(tagged_positions(t, idx, tag, m) =~= tagged_positions(t, idx, tag, m - 1).insert(m - 1));
        } else {
            assert(tagged_positions(t, idx, tag, m) =~= tagged_positions(t, idx, tag, m - 1));
        }
    }
}

/// The positions of `t` that come ahead of `t[i]` among the first `k`.
pub open spec fn ahead_set(t: Seq<ArtifactView>, i: int, k: int) -> Set<int> {
    Set::new(|j: int| 0 <= j < k && ahead(t, j, i))
}

/// The positions of the artifacts of `t` tagged `tag`.
pub open spec fn tag_group(t: Seq<ArtifactView>, tag: Seq<char>) -> Set<int> {
    Set::new(|i: int| 0 <= i < t.len() && t[i].tag == tag)
}

proof fn lemma_count_ahead_card(t: Seq<ArtifactView>, i: int, k: int)
    requires
        0 <= k <= t.len(),
    ensures
        ahead_set(t, i, k).finite(),
        count_ahead(t, i, k) == ahead_set(t, i, k).len(),
    decreases k,
{
    if k == 0 {
        assert(ahead_set(t, i, 0) =~= Set::<int>::empty());
    } else {
        lemma_count_ahead_card(t, i, k - 1);
        if ahead(t, k - 1, i) {
            assert(ahead_set(t, i, k) =~= ahead_set(t, i, k - 1).insert(k - 1));
        } else {
            assert(ahead_set(t, i, k) =~= ahead_set(t, i, k - 1));
        }
    }
}

proof fn lemma_tag_group_size(t: Seq<ArtifactView>, tag: Seq<char>)
    ensures
        tag_group(t, tag).finite(),
        tag_group(t, tag).len() == t.filter(|a: ArtifactView| a.tag == tag).len(),
{
    let len = t.len() as int;
    let idx = Seq::new(t.len(), |i: int| i);
    lemma_tagged_count(t, idx, tag, len);
    assert(idx.take(len) =~= idx);
    assert(pick(t, idx) =~= t);
    assert(tagged_positions(t, idx, tag, len) =~= tag_group(t, tag));
}

/// Within a tag the ranks are 0, 1, ... up to the number of its artifacts.
proof fn lemma_ranks_fill_group(t: Seq<ArtifactView>, tag: Seq<char>)
    ensures
        tag_group(t, tag).finite(),
        tag_group(t, tag).map(|i: int| rank(t, i) as int)
            == vstd::set_lib::set_int_range(0, tag_group(t, tag).len() as int),
{
    let g = tag_group(t, tag);
    let f = |i: int| rank(t, i) as int;
    let len = t.len() as int;
    vstd::set_lib::lemma_int_range(0, len);
    vstd::set_lib::lemma_len_subset(g, vstd::set_lib::set_int_range(0, len));
    assert forall|i: int| g.contains(i) implies 0 <= #[trigger] f(i) < g.len() by {
        lemma_count_ahead_card(t, i, len);
        assert(ahead_set(t, i, len).subset_of(g.remove(i)));
        vstd::set_lib::lemma_len_subset(ahead_set(t, i, len), g.remove(i));
    }
    assert forall|p: int, q: int| g.contains(p) && g.contains(q) && #[trigger] f(p) == #[trigger] f(q) implies p == q by {
        if p != q {
            lemma_rank_distinct(t, p, q);
        }
    }
    let image = g.map(f);
    vstd::set_lib::lemma_map_size(g, image, f);
    let range = vstd::set_lib::set_int_range(0, g.len() as int);
    vstd::set_lib::lemma_int_range(0, g.len() as int);
    assert forall|r: int| image.contains(r) implies range.contains(r) by {
        let i = choose|i: int| g.contains(i) && r == f(i);
    }
    vstd::set_lib::lemma_subset_equality(image, range);
}

/// Keeping `n` per tag leaves, of each tag, `n` artifacts or all that it
/// had where it had fewer.
pub proof fn law_keeps_n_per_tag(t: Seq<ArtifactView>, ki: Seq<int>, n: nat, tag: Seq<char>)
    requires
        arranged(t, ki, n, true),
    ensures
        pick(t, ki).filter(|a: ArtifactView| a.tag == tag).len() == if n < t.filter(
            |a: ArtifactView| a.tag == tag,
        ).len() {
            n
        } else {
            t.filter(|a: ArtifactView| a.tag == tag).len()
        },
{
    let g = tag_group(t, tag);
    lemma_tag_group_size(t, tag);
    lemma_ranks_fill_group(t, tag);
    let f = |i: int| rank(t, i) as int;
    let m = if n < g.len() { n as int } else { g.len() as int };
    // The kept artifacts of the tag, by position in `t`.
    let kept = Set::new(|i: int| g.contains(i) && rank(t, i) < n);
    vstd::set_lib::lemma_len_subset(kept, g);
    assert forall|p: int, q: int| kept.contains(p) && kept.contains(q) && #[trigger] f(p) == #[trigger] f(q) implies p == q by {
        if p != q {
            lemma_rank_distinct(t, p, q);
        }
    }
    let kept_ranks = kept.map(f);
    vstd::set_lib::lemma_map_size(kept, kept_ranks, f);
    vstd::set_lib::lemma_int_range(0, m);
    assert forall|r: int| kept_ranks.contains(r) <==> vstd::set_lib::set_int_range(0, m).contains(r) by {
        if vstd::set_lib::set_int_range(0, m).contains(r) {
            assert(g.map(f).contains(r));
            let i = choose|i: int| g.contains(i) && r == f(i);
            assert(kept.contains(i));
        }
    }
    assert(kept_ranks =~= vstd::set_lib::set_int_range(0, m));
    // The positions in the output of the kept artifacts of the tag.
    let len = ki.len() as int;
    lemma_tagged_count(t, ki, tag, len);
    assert(ki.take(len) =~= ki);
    let ps = tagged_positions(t, ki, tag, len);
    let h = |p: int| ki[p];
    assert forall|p: int, q: int| ps.contains(p) && ps.contains(q) && #[trigger] h(p) == #[trigger] h(q) implies p == q by {
        if p != q {
            let (x, y) = if p < q { (p, q) } else { (q, p) };
            assert(placed_before(t, ki[x], ki[y]));
        }
    }
    let positions = ps.map(h);
    assert forall|i: int| positions.contains(i) <==> kept.contains(i) by {
        if positions.contains(i) {
            let p = choose|p: int| ps.contains(p) && i == h(p);
            assert(0 <= ki[p] < t.len());
        }
        if kept.contains(i) {
            assert(crate::clean::selected(t, n, true, i));
            let p = choose|p: int| 0 <= p < ki.len() && ki[p] == i;
            assert(ps.contains(p));
        }
    }
    assert(positions =~= kept);
    vstd::set_lib::lemma_int_range(0, len);
    vstd::set_lib::lemma_len_subset(ps, vstd::set_lib::set_int_range(0, len));
    vstd::set_lib::lemma_map_size(ps, positions, h);
}

proof fn lemma_filter_all(s: Seq<ArtifactView>, f: spec_fn(ArtifactView) -> bool)
    requires
        forall|i: int| 0 <= i < s.len() ==> f(#[trigger] s[i]),
    ensures
        s.filter(f) == s,
    decreases s.len(),
{
    reveal_with_fuel(Seq::<_>::filter, 1);
    if s.len() > 0 {
        lemma_filter_all(s.drop_last(), f);
        assert(s.drop_last().push(s.last()) =~= s);
    }
}

proof fn lemma_filter_none(s: Seq<ArtifactView>, f: spec_fn(ArtifactView) -> bool)
    requires
        forall|i: int| 0 <= i < s.len() ==> !f(#[trigger] s[i]),
    ensures
        s.filter(f) == Seq::<ArtifactView>::empty(),
    decreases s.len(),
{
    reveal_with_fuel(Seq::<_>::filter, 1);
    if s.len() > 0 {
        lemma_filter_none(s.drop_last(), f);
    }
}

/// The artifacts that cleaning keeps stand in output order already.
proof fn lemma_kept_in_order(t: Seq<ArtifactView>, ki: Seq<int>, n: nat, p: int, q: int)
    requires
        arranged(t, ki, n, true),
        0 <= p < q < ki.len(),
    ensures
        placed_before(pick(t, ki), p, q),
{
    let left = pick(t, ki);
    let a = ki[p];
    let b = ki[q];
    assert(placed_before(t, a, b));
    assert(left[p] == t[a]);
    assert(left[q] == t[b]);
    lemma_group(left, p, q);
    lemma_group(t, a, b);
    if left[p].tag == left[q].tag {
        lemma_rank_distinct(t, a, b);
        assert(ahead(t, a, b));
        assert(ahead(left, p, q));
        lemma_rank_distinct(left, q, p);
    } else {
        let g1 = crate::clean::group(left, p);
        let g2 = crate::clean::group(left, q);
        lemma_group(left, q, p);
        if g2 < g1 {
            assert(left[g2] == t[ki[g2]]);
            assert(placed_before(t, ki[g2], a));
            lemma_group(t, ki[g2], b);
            lemma_group(t, ki[g2], a);
        }
    }
}

/// Cleaning the index that cleaning left, with the same cutoff and count,
/// removes nothing and leaves the same artifacts in the same order: nothing
/// left is expired, and every artifact left is among the `n` newest of its tag.
pub proof fn law_clean_is_idempotent(s: Seq<ArtifactView>, c: Option<Timestamp>, n: nat, ki: Seq<int>)
    requires
        arranged(unexpired(s, c), ki, n, true),
    ensures
        ({
            let left = pick(unexpired(s, c), ki);
            &&& expired(left, c) == Seq::<ArtifactView>::empty()
            &&& unexpired(left, c) == left
            &&& forall|p: int| 0 <= p < left.len() ==> #[trigger] rank(left, p) < n
            &&& forall|ri: Seq<int>| #[trigger] arranged(left, ri, n, false) ==> ri.len() == 0
            &&& forall|k2: Seq<int>| #[trigger] arranged(left, k2, n, true) ==> pick(left, k2) == left
        }),
{
    let t = unexpired(s, c);
    let left = pick(t, ki);
    if let Some(cut) = c {
        law_cutoff_divides(s, cut);
        assert forall|i: int| 0 <= i < left.len() implies !earlier(#[trigger] left[i].stored_at, cut) by {
            assert(left[i] == t[ki[i]]);
        }
        lemma_filter_all(left, |a: ArtifactView| !earlier(a.stored_at, cut));
        lemma_filter_none(left, |a: ArtifactView| earlier(a.stored_at, cut));
    }
    assert forall|p: int| 0 <= p < left.len() implies #[trigger] rank(left, p) < n by {
        lemma_rank_within_kept(t, ki, n, p);
    }
    assert forall|ri: Seq<int>| #[trigger] arranged(left, ri, n, false) implies ri.len() == 0 by {
        if ri.len() > 0 {
            assert(selected(left, n, false, ri[0]));
        }
    }
    let id = Seq::new(left.len(), |i: int| i);
    assert forall|x: int, y: int| 0 <= x < y < id.len() implies placed_before(left, #[trigger] id[x], #[trigger] id[y]) by {
        lemma_kept_in_order(t, ki, n, x, y);
    }
    assert forall|i: int| 0 <= i < left.len() && #[trigger] selected(left, n, true, i) implies id.contains(i) by {
        assert(id[i] == i);
    }
    assert(arranged(left, id, n, true));
    assert forall|k2: Seq<int>| #[trigger] arranged(left, k2, n, true) implies pick(left, k2) == left by {
        law_arrangement_is_unique(left, k2, id, n, true);
        assert(pick(left, id) =~= left);
    }
}

/// Cleaning by age alone a second time, with the same cutoff, removes nothing
/// and leaves the index as it was.
pub proof fn law_clean_by_age_is_idempotent(s: Seq<ArtifactView>, c: Option<Timestamp>)
    ensures
        expired(unexpired(s, c), c) == Seq::<ArtifactView>::empty(),
        unexpired(unexpired(s, c), c) == unexpired(s, c),
{
    if let Some(cut) = c {
        law_cutoff_divides(s, cut);
        let t = unexpired(s, c);
        lemma_filter_all(t, |a: ArtifactView| !earlier(a.stored_at, cut));
        lemma_filter_none(t, |a: ArtifactView| earlier(a.stored_at, cut));
    }
}

proof fn lemma_rank_within_kept(t: Seq<ArtifactView>, ki: Seq<int>, n: nat, p: int)
    requires
        arranged(t, ki, n, true),
        0 <= p < ki.len(),
    ensures
        rank(pick(t, ki), p) < n,
{
    let left = pick(t, ki);
    let len2 = left.len() as int;
    let len = t.len() as int;
    let i = ki[p];
    lemma_count_ahead_card(left, p, len2);
    lemma_count_ahead_card(t, i, len);
    let before2 = ahead_set(left, p, len2);
    let before = ahead_set(t, i, len);
    let h = |q: int| ki[q];
    assert forall|q: int| before2.contains(q) implies before.contains(#[trigger] h(q)) by {
        let j = ki[q];
        assert(left[q] == t[j]);
        assert(left[p] == t[i]);
        assert(0 <= j < len);
        if !earlier(t[i].stored_at, t[j].stored_at) {
            assert(q < p);
            assert(placed_before(t, j, i));
            assert(j != i);
            lemma_group(t, j, i);
            lemma_rank_distinct(t, j, i);
            if j > i {
                assert(ahead(t, i, j));
            }
            assert(j < i);
        }
    }
    assert forall|q1: int, q2: int| before2.contains(q1) && before2.contains(q2) && #[trigger] h(q1) == #[trigger] h(q2) implies q1 == q2 by {
        if q1 != q2 {
            let (x, y) = if q1 < q2 { (q1, q2) } else { (q2, q1) };
            assert(placed_before(t, ki[x], ki[y]));
        }
    }
    let image = before2.map(h);
    vstd::set_lib::lemma_map_size(before2, image, h);
    vstd::set_lib::lemma_len_subset(image, before);
}

proof fn lemma_arrangements_agree(
    t: Seq<ArtifactView>,
    k1: Seq<int>,
    k2: Seq<int>,
    n: nat,
    kept: bool,
    p: int,
)
    requires
        arranged(t, k1, n, kept),
        arranged(t, k2, n, kept),
        0 <= p <= k1.len(),
        p <= k2.len(),
    ensures
        forall|q: int| 0 <= q < p ==> k1[q] == k2[q],
    decreases p,
{
    if p > 0 {
        lemma_arrangements_agree(t, k1, k2, n, kept, p - 1);
        let x = k1[p - 1];
        let y = k2[p - 1];
        if x != y {
            assert(selected(t, n, kept, x));
            assert(k2.contains(x));
            let a = choose|a: int| 0 <= a < k2.len() && k2[a] == x;
            assert(selected(t, n, kept, y));
            assert(k1.contains(y));
            let b = choose|b: int| 0 <= b < k1.len() && k1[b] == y;
            if a < p - 1 {
                assert(k1[a] == x);
                assert(placed_before(t, k1[a], k1[p - 1]));
            }
            if b < p - 1 {
                assert(k2[b] == y);
                assert(placed_before(t, k2[b], k2[p - 1]));
            }
            assert(placed_before(t, y, x));
            assert(placed_before(t, x, y));
        }
    }
}

/// The order in which `clean` gives back the kept and the removed artifacts
/// is fixed: two runs of positions arranged alike are the same run.
pub proof fn law_arrangement_is_unique(t: Seq<ArtifactView>, k1: Seq<int>, k2: Seq<int>, n: nat, kept: bool)
    requires
        arranged(t, k1, n, kept),
        arranged(t, k2, n, kept),
    ensures
        k1 == k2,
{
    let m = if k1.len() < k2.len() { k1.len() as int } else { k2.len() as int };
    lemma_arrangements_agree(t, k1, k2, n, kept, m);
    if k1.len() < k2.len() {
        let y = k2[m];
        assert(selected(t, n, kept, y));
        assert(k1.contains(y));
        let b = choose|b: int| 0 <= b < k1.len() && k1[b] == y;
        assert(k2[b] == y);
        assert(placed_before(t, k2[b], k2[m]));
    } else if k2.len() < k1.len() {
        let x = k1[m];
        assert(selected(t, n, kept, x));
        assert(k2.contains(x));
        let a = choose|a: int| 0 <= a < k2.len() && k2[a] == x;
        assert(k1[a] == x);
        assert(placed_before(t, k1[a], k1[m]));
    }
    assert(k1 =~= k2);
}

proof fn lemma_sorted_texts_agree(t1: Seq<Seq<char>>, t2: Seq<Seq<char>>, p: int)
    requires
        strictly_sorted(t1),
        strictly_sorted(t2),
        t1.to_set() == t2.to_set(),
        0 <= p <= t1.len(),
        p <= t2.len(),
    ensures
        forall|q: int| 0 <= q < p ==> t1[q] == t2[q],
    decreases p,
{
    if p > 0 {
        lemma_sorted_texts_agree(t1, t2, p - 1);
        let x = t1[p - 1];
        let y = t2[p - 1];
        if x != y {
            assert(t1.to_set().contains(x));
            assert(t2.contains(x));
            let a = choose|a: int| 0 <= a < t2.len() && t2[a] == x;
            assert(t2.to_set().contains(y));
            assert(t1.contains(y));
            let b = choose|b: int| 0 <= b < t1.len() && t1[b] == y;
            lemma_text_lt_order(x, y, x);
            if a < p - 1 {
                assert(t1[a] == x);
                assert(text_lt(t1[a], t1[p - 1]));
            }
            if b < p - 1 {
                assert(t2[b] == y);
                assert(text_lt(t2[b], t2[p - 1]));
            }
            assert(text_lt(y, x));
            assert(text_lt(x, y));
        }
    }
}

/// A strictly sorted run of texts is fixed by the set of its texts: the
/// tags that `stats` lists depend on the set of tags alone.
pub proof fn law_sorted_texts_unique(t1: Seq<Seq<char>>, t2: Seq<Seq<char>>)
    requires
        strictly_sorted(t1),
        strictly_sorted(t2),
        t1.to_set() == t2.to_set(),
    ensures
        t1 == t2,
{
    let m = if t1.len() < t2.len() { t1.len() as int } else { t2.len() as int };
    lemma_sorted_texts_agree(t1, t2, m);
    if t1.len() < t2.len() {
        let y = t2[m];
        assert(t2.to_set().contains(y));
        assert(t1.contains(y));
        let b = choose|b: int| 0 <= b < t1.len() && t1[b] == y;
        assert(t2[b] == y);
        assert(text_lt(t2[b], t2[m]));
        lemma_text_lt_order(y, y, y);
    } else if t2.len() < t1.len() {
        let x = t1[m];
        assert(t1.to_set().contains(x));
        assert(t2.contains(x));
        let a = choose|a: int| 0 <= a < t2.len() && t2[a] == x;
        assert(t1[a] == x);
        assert(text_lt(t1[a], t1[m]));
        lemma_text_lt_order(x, x, x);
    }
    assert(t1 =~= t2);
}

/// The place where `x` goes in a sorted run: the number of texts before it.
pub open spec fn insertion_point(t: Seq<Seq<char>>, x: Seq<char>, k: int) -> int
    decreases t.len() - k,
{
    if k < 0 || k >= t.len() {
        t.len() as int
    } else if text_lt(t[k], x) {
        insertion_point(t, x, k + 1)
    } else {
        k
    }
}

proof fn lemma_insertion_point(t: Seq<Seq<char>>, x: Seq<char>, k: int)
    requires
        0 <= k <= t.len(),
    ensures
        k <= insertion_point(t, x, k) <= t.len(),
        forall|i: int| k <= i < insertion_point(t, x, k) ==> text_lt(#[trigger] t[i], x),
        insertion_point(t, x, k) < t.len() ==> !text_lt(t[insertion_point(t, x, k)], x),
    decreases t.len() - k,
{
    if k < t.len() && text_lt(t[k], x) {
        lemma_insertion_point(t, x, k + 1);
    }
}

/// Putting a text that is not there into its place keeps a run strictly sorted.
proof fn lemma_insert_sorted(t: Seq<Seq<char>>, x: Seq<char>)
    requires
        strictly_sorted(t),
        !t.contains(x),
    ensures
        strictly_sorted(t.insert(insertion_point(t, x, 0), x)),
        t.insert(insertion_point(t, x, 0), x).to_set() == t.to_set().insert(x),
{
    let p = insertion_point(t, x, 0);
    lemma_insertion_point(t, x, 0);
    let n = t.insert(p, x);
    if p < t.len() {
        lemma_text_lt_order(t[p], x, t[p]);
        assert(t[p] != x);
    }
    assert forall|a: int, b: int| 0 <= a < b < n.len() implies text_lt(n[a], n[b]) by {
        if b == p {
            assert(n[a] == t[a]);
        } else if a == p {
            assert(n[b] == t[b - 1]);
            if b - 1 > p {
                assert(text_lt(t[p], t[b - 1]));
                lemma_text_lt_order(x, t[p], t[b - 1]);
            }
        } else {
            let i = if a < p { a } else { a - 1 };
            let j = if b < p { b } else { b - 1 };
            assert(n[a] == t[i]);
            assert(n[b] == t[j]);
            assert(text_lt(t[i], t[j]));
        }
    }
    assert forall|y: Seq<char>| n.contains(y) <==> t.contains(y) || y == x by {
        if n.contains(y) {
            let k = choose|k: int| 0 <= k < n.len() && n[k] == y;
            if k < p {
                assert(t[k] == y);
            } else if k > p {
                assert(t[k - 1] == y);
            }
        }
        if t.contains(y) {
            let k = choose|k: int| 0 <= k < t.len() && t[k] == y;
            if k < p {
                assert(n[k] == y);
            } else {
                assert(n[k + 1] == y);
            }
        }
        if y == x {
            assert(n[p] == y);
        }
    }
    assert(n.to_set() =~= t.to_set().insert(x));
}

proof fn lemma_push_to_set<A>(s: Seq<A>, x: A)
    ensures
        s.push(x).to_set() == s.to_set().insert(x),
{
    s.lemma_push_to_set_commute(x);
}

/// What storing one more artifact does to the statistics: one artifact more,
/// its size added to the total, its tag and commit added to the sets (a new
/// one counted once more), and the sorted tags unchanged where the tag was
/// known, else with the tag put in its sorted place.
pub proof fn law_stats_after_add(s: Seq<ArtifactView>, a: ArtifactView, t0: Seq<Seq<char>>, t1: Seq<Seq<char>>)
    requires
        strictly_sorted(t0),
        strictly_sorted(t1),
        t0.to_set() == tags_of(s),
        t1.to_set() == tags_of(s.push(a)),
    ensures
        s.push(a).len() == s.len() + 1,
        total_size(s.push(a)) == total_size(s) + a.size_bytes,
        tags_of(s.push(a)) == tags_of(s).insert(a.tag),
        commits_of(s.push(a)) == commits_of(s).insert(a.commit),
        tags_of(s.push(a)).len() == tags_of(s).len() + if tags_of(s).contains(a.tag) { 0int } else { 1int },
        commits_of(s.push(a)).len() == commits_of(s).len() + if commits_of(s).contains(a.commit) {
            0int
        } else {
            1int
        },
        tags_of(s).contains(a.tag) ==> t1 == t0,
        !tags_of(s).contains(a.tag) ==> t1 == t0.insert(insertion_point(t0, a.tag, 0), a.tag),
{
    assert(s.push(a).drop_last() =~= s);
    let tg = |x: ArtifactView| x.tag;
    let cm = |x: ArtifactView| x.commit;
    assert(s.push(a).map_values(tg) =~= s.map_values(tg).push(a.tag));
    assert(s.push(a).map_values(cm) =~= s.map_values(cm).push(a.commit));
    lemma_push_to_set(s.map_values(tg), a.tag);
    lemma_push_to_set(s.map_values(cm), a.commit);
    vstd::seq_lib::seq_to_set_is_finite(s.map_values(tg));
    vstd::seq_lib::seq_to_set_is_finite(s.map_values(cm));
    if tags_of(s).contains(a.tag) {
        assert(tags_of(s).insert(a.tag) =~= tags_of(s));
        law_sorted_texts_unique(t1, t0);
    } else {
        assert(!t0.contains(a.tag));
        lemma_insert_sorted(t0, a.tag);
        law_sorted_texts_unique(t1, t0.insert(insertion_point(t0, a.tag, 0), a.tag));
    }
    if commits_of(s).contains(a.commit) {
        assert(commits_of(s).insert(a.commit) =~= commits_of(s));
    }
}

proof fn lemma_total_size_concat(a: Seq<ArtifactView>, b: Seq<ArtifactView>)
    ensures
        total_size(a + b) == total_size(a) + total_size(b),
    decreases b.len(),
{
    if b.len() == 0 {
        assert(a + b =~= a);
    } else {
        lemma_total_size_concat(a, b.drop_last());
        assert((a + b).drop_last() =~= a + b.drop_last());
    }
}

proof fn lemma_total_size_remove(s: Seq<ArtifactView>, j: int)
    requires
        0 <= j < s.len(),
    ensures
        total_size(s) == total_size(s.remove(j)) + s[j].size_bytes,
{
    let front = s.take(j);
    let back = s.skip(j + 1);
    assert(s =~= front + seq![s[j]] + back);
    assert(s.remove(j) =~= front + back);
    lemma_total_size_concat(front + seq![s[j]], back);
    lemma_total_size_concat(front, seq![s[j]]);
    lemma_total_size_concat(front, back);
    let one = seq![s[j]];
    assert(one.drop_last() =~= Seq::<ArtifactView>::empty());
    assert(total_size(one.drop_last()) == 0);
    assert(one.last() == s[j]);
    assert(total_size(one) == s[j].size_bytes);
}

proof fn lemma_total_size_permutation(s1: Seq<ArtifactView>, s2: Seq<ArtifactView>)
    requires
        s1.to_multiset() == s2.to_multiset(),
    ensures
        total_size(s1) == total_size(s2),
    decreases s1.len(),
{
    broadcast use vstd::seq_lib::group_to_multiset_ensures;
    vstd::seq_lib::to_multiset_len(s1);
    vstd::seq_lib::to_multiset_len(s2);
    if s1.len() == 0 {
        assert(s2.len() == 0);
    } else {
        let x = s1.last();
        let r1 = s1.drop_last();
        assert(s1 =~= r1.push(x));
        vstd::seq_lib::to_multiset_contains(s1, x);
        vstd::seq_lib::to_multiset_contains(s2, x);
        assert(s1[s1.len() - 1] == x);
        assert(s2.contains(x));
        let j = choose|j: int| 0 <= j < s2.len() && s2[j] == x;
        let r2 = s2.remove(j);
        assert(r1.to_multiset() =~= r2.to_multiset());
        lemma_total_size_permutation(r1, r2);
        lemma_total_size_remove(s2, j);
    }
}

proof fn lemma_field_set_permutation(
    s1: Seq<ArtifactView>,
    s2: Seq<ArtifactView>,
    f: spec_fn(ArtifactView) -> Seq<char>,
)
    requires
        s1.to_multiset() == s2.to_multiset(),
    ensures
        s1.map_values(f).to_set() == s2.map_values(f).to_set(),
{
    broadcast use vstd::seq_lib::group_to_multiset_ensures;
    assert forall|y: Seq<char>| s1.map_values(f).contains(y) implies s2.map_values(f).contains(y) by {
        let k = choose|k: int| 0 <= k < s1.len() && s1.map_values(f)[k] == y;
        assert(s1[k] == s1[k]);
        vstd::seq_lib::to_multiset_contains(s1, s1[k]);
        vstd::seq_lib::to_multiset_contains(s2, s1[k]);
        assert(s2.contains(s1[k]));
        let j = choose|j: int| 0 <= j < s2.len() && s2[j] == s1[k];
        assert(s2.map_values(f)[j] == y);
    }
    assert forall|y: Seq<char>| s2.map_values(f).contains(y) implies s1.map_values(f).contains(y) by {
        let k = choose|k: int| 0 <= k < s2.len() && s2.map_values(f)[k] == y;
        vstd::seq_lib::to_multiset_contains(s1, s2[k]);
        vstd::seq_lib::to_multiset_contains(s2, s2[k]);
        assert(s1.contains(s2[k]));
        let j = choose|j: int| 0 <= j < s1.len() && s1[j] == s2[k];
        assert(s1.map_values(f)[j] == y);
    }
    assert(s1.map_values(f).to_set() =~= s2.map_values(f).to_set());
}

/// The statistics do not depend on the order of the index: two indexes that
/// hold the same artifacts give the same count, total size, tag and commit
/// sets, and the same sorted tags.
pub proof fn law_stats_ignore_order(s1: Seq<ArtifactView>, s2: Seq<ArtifactView>, t1: Seq<Seq<char>>, t2: Seq<Seq<char>>)
    requires
        s1.to_multiset() == s2.to_multiset(),
        strictly_sorted(t1),
        strictly_sorted(t2),
        t1.to_set() == tags_of(s1),
        t2.to_set() == tags_of(s2),
    ensures
        s1.len() == s2.len(),
        total_size(s1) == total_size(s2),
        tags_of(s1) == tags_of(s2),
        commits_of(s1) == commits_of(s2),
        t1 == t2,
{
    broadcast use vstd::seq_lib::group_to_multiset_ensures;
    vstd::seq_lib::to_multiset_len(s1);
    vstd::seq_lib::to_multiset_len(s2);
    lemma_total_size_permutation(s1, s2);
    lemma_field_set_permutation(s1, s2, |x: ArtifactView| x.tag);
    lemma_field_set_permutation(s1, s2, |x: ArtifactView| x.commit);
    law_sorted_texts_unique(t1, t2);
}

} // verus!
