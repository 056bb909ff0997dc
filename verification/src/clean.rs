//! Cleaning a warehouse: dropping artifacts stored before a cutoff, and
//! keeping only the newest few of each tag.

use vstd::prelude::*;

use crate::model::{earlier, is_earlier, views, Artifact, ArtifactView, Index, Timestamp};
use crate::text::text_eq;

verus! {

/// What chrono's `DateTime<Utc>::checked_sub_signed` gives for the instant
/// (`secs`, `nanos`) and a span of `days` whole days.
pub uninterp spec fn minus_days(secs: i64, nanos: u32, days: i64) -> Option<(i64, u32)>;

/// `days` whole days make a chrono `TimeDelta`: `TimeDelta::try_days` takes
/// counts whose seconds lie within `i64::MAX` milliseconds either way.
pub open spec fn days_span_ok(days: i64) -> bool {
    -9_223_372_036_854_775 <= days * 86_400 <= 9_223_372_036_854_775
}

/// An instant from the pair that `minus_days` names.
pub open spec fn instant(p: Option<(i64, u32)>) -> Option<Timestamp> {
    match p {
        Some((secs, nanos)) => Some(Timestamp { secs, nanos }),
        None => None,
    }
}

/// The instant `secs` seconds after the Unix epoch lies within chrono's
/// calendar, from January 1, 262144 BCE to December 31, 262142 CE (UTC).
pub open spec fn in_calendar(secs: int) -> bool {
    -8_334_601_228_800 <= secs <= 8_210_266_876_799
}

/// chrono's `DateTime::<Utc>::checked_sub_signed` with the span
/// `TimeDelta::try_days(days)`, the instant taken from and given back as
/// seconds and nanoseconds since the epoch. The contract names the result
/// and states: there is none where the span cannot be made; outside a leap
/// second there is one where both the instant and the instant `days` times
/// 86 400 seconds earlier lie within the calendar, and it is that earlier
/// instant with the same nanoseconds.
#[verifier::external_body]
fn instant_minus_days(at: Timestamp, days: i64) -> (r: Option<Timestamp>)
    ensures
        r == instant(minus_days(at.secs, at.nanos, days)),
        !days_span_ok(days) ==> r is None,
        days_span_ok(days) && at.nanos < 1_000_000_000 && in_calendar(at.secs as int) && in_calendar(
            at.secs - days * 86_400,
        ) ==> r is Some,
        r matches Some(c) ==> (at.nanos < 1_000_000_000 ==> c.secs == at.secs - days * 86_400
            && c.nanos == at.nanos),
{
    let span = chrono::TimeDelta::try_days(days)?;
    let start = chrono::DateTime::from_timestamp(at.secs, at.nanos)?;
    let end = start.checked_sub_signed(span)?;
    Some(Timestamp { secs: end.timestamp(), nanos: end.timestamp_subsec_nanos() })
}

/// The cutoff for removing artifacts older than `days` days: the instant
/// `days` days before `now`. There is none, and so no artifact is old enough
/// to go, where that instant lies before chrono's calendar begins or the
/// count is too large for chrono to reckon.
pub fn cutoff(now: Timestamp, days: u64) -> (r: Option<Timestamp>)
    ensures
        days > i64::MAX ==> r is None,
        days <= i64::MAX ==> r == instant(minus_days(now.secs, now.nanos, days as i64)),
        days <= i64::MAX && days_span_ok(days as i64) && now.nanos < 1_000_000_000 && in_calendar(
            now.secs as int,
        ) && in_calendar(now.secs - days * 86_400) ==> r is Some,
        r matches Some(c) ==> (now.nanos < 1_000_000_000 ==> c.secs == now.secs - days * 86_400
            && c.nanos == now.nanos),
{
    if days > i64::MAX as u64 {
        return None;
    }
    instant_minus_days(now, days as i64)
}

/// The artifacts stored at or after the cutoff, where there is one.
pub open spec fn unexpired(s: Seq<ArtifactView>, cutoff: Option<Timestamp>) -> Seq<ArtifactView> {
    match cutoff {
        Some(c) => s.filter(|a: ArtifactView| !earlier(a.stored_at, c)),
        None => s,
    }
}

/// The artifacts stored before the cutoff, where there is one.
pub open spec fn expired(s: Seq<ArtifactView>, cutoff: Option<Timestamp>) -> Seq<ArtifactView> {
    match cutoff {
        Some(c) => s.filter(|a: ArtifactView| earlier(a.stored_at, c)),
        None => Seq::empty(),
    }
}

/// `t[j]` comes ahead of `t[i]` among the artifacts of their tag, newest
/// first: it has the same tag and was stored later, or at the same instant
/// and earlier in the index.
pub open spec fn ahead(t: Seq<ArtifactView>, j: int, i: int) -> bool {
    &&& t[j].tag == t[i].tag
    &&& (earlier(t[i].stored_at, t[j].stored_at) || (t[j].stored_at == t[i].stored_at && j < i))
}

/// How many of the first `k` artifacts come ahead of `t[i]`.
pub open spec fn count_ahead(t: Seq<ArtifactView>, i: int, k: int) -> nat
    decreases k,
{
    if k <= 0 {
        0
    } else {
        count_ahead(t, i, k - 1) + (if ahead(t, k - 1, i) { 1nat } else { 0nat })
    }
}

/// The place of `t[i]` among the artifacts of its tag, newest first, from 0.
pub open spec fn rank(t: Seq<ArtifactView>, i: int) -> nat {
    count_ahead(t, i, t.len() as int)
}

/// The first position at or after `k` of an artifact tagged `tag`
/// (the length of `t` where there is none).
pub open spec fn first_with_tag(t: Seq<ArtifactView>, tag: Seq<char>, k: int) -> int
    decreases t.len() - k,
{
    if k < 0 || k >= t.len() {
        t.len() as int
    } else if t[k].tag == tag {
        k
    } else {
        first_with_tag(t, tag, k + 1)
    }
}

/// The first position of an artifact with the tag of `t[i]`: the tags are
/// taken in the order in which they first occur.
pub open spec fn group(t: Seq<ArtifactView>, i: int) -> int {
    first_with_tag(t, t[i].tag, 0)
}

/// The order of the output: by tag in order of first occurrence, and within
/// a tag newest first.
pub open spec fn placed_before(t: Seq<ArtifactView>, i: int, j: int) -> bool {
    group(t, i) < group(t, j) || (group(t, i) == group(t, j) && rank(t, i) < rank(t, j))
}

/// Keeping `n` per tag, `t[i]` is kept (`kept` true) or removed (`kept` false).
pub open spec fn selected(t: Seq<ArtifactView>, n: nat, kept: bool, i: int) -> bool {
    (rank(t, i) < n) == kept
}

/// `idx` lists, in output order, exactly the positions of `t` that are kept
/// (or, with `kept` false, removed) when `n` are kept per tag.
pub open spec fn arranged(t: Seq<ArtifactView>, idx: Seq<int>, n: nat, kept: bool) -> bool {
    &&& forall|p: int| 0 <= p < idx.len() ==> 0 <= #[trigger] idx[p] < t.len() && selected(t, n, kept, idx[p])
    &&& forall|p: int, q: int| 0 <= p < q < idx.len() ==> placed_before(t, #[trigger] idx[p], #[trigger] idx[q])
    &&& forall|i: int| 0 <= i < t.len() && #[trigger] selected(t, n, kept, i) ==> idx.contains(i)
}

/// The artifacts of `t` at the positions `idx`.
pub open spec fn pick(t: Seq<ArtifactView>, idx: Seq<int>) -> Seq<ArtifactView> {
    idx.map_values(|k: int| t[k])
}

/// Positions as integers.
pub open spec fn ints(v: Seq<usize>) -> Seq<int> {
    v.map_values(|k: usize| k as int)
}

/// What `first_with_tag` finds.
pub proof fn lemma_first_with_tag(t: Seq<ArtifactView>, tag: Seq<char>, k: int)
    requires
        0 <= k <= t.len(),
    ensures
        k <= first_with_tag(t, tag, k) <= t.len(),
        first_with_tag(t, tag, k) < t.len() ==> t[first_with_tag(t, tag, k)].tag == tag,
        forall|j: int| k <= j < first_with_tag(t, tag, k) ==> t[j].tag != tag,
    decreases t.len() - k,
{
    if k < t.len() && t[k].tag != tag {
        lemma_first_with_tag(t, tag, k + 1);
    }
}

/// Two artifacts share a group exactly when they share a tag.
pub proof fn lemma_group(t: Seq<ArtifactView>, i: int, j: int)
    requires
        0 <= i < t.len(),
        0 <= j < t.len(),
    ensures
        0 <= group(t, i) <= i,
        t[group(t, i)].tag == t[i].tag,
        (group(t, i) == group(t, j)) <==> (t[i].tag == t[j].tag),
{
    lemma_first_with_tag(t, t[i].tag, 0);
    lemma_first_with_tag(t, t[j].tag, 0);
}

/// Whatever comes ahead of `t[j]` comes ahead of `t[i]` too where `t[j]` is
/// ahead of `t[i]`, so `t[j]` ranks strictly higher.
pub proof fn lemma_count_ahead_grows(t: Seq<ArtifactView>, i: int, j: int, k: int)
    requires
        0 <= i < t.len(),
        0 <= j < t.len(),
        0 <= k <= t.len(),
        ahead(t, j, i),
    ensures
        count_ahead(t, j, k) + (if j < k { 1nat } else { 0nat }) <= count_ahead(t, i, k),
    decreases k,
{
    if k > 0 {
        lemma_count_ahead_grows(t, i, j, k - 1);
    }
}

/// Within a tag, different artifacts have different ranks, and the one ahead ranks first.
pub proof fn lemma_rank_distinct(t: Seq<ArtifactView>, i: int, j: int)
    requires
        0 <= i < t.len(),
        0 <= j < t.len(),
        i != j,
        t[i].tag == t[j].tag,
    ensures
        rank(t, i) != rank(t, j),
        ahead(t, j, i) ==> rank(t, j) < rank(t, i),
{
    if ahead(t, j, i) {
        lemma_count_ahead_grows(t, i, j, t.len() as int);
    } else {
        assert(ahead(t, i, j));
        lemma_count_ahead_grows(t, j, i, t.len() as int);
    }
}

/// Splits the index at the cutoff: those stored at or after it, and those before.
fn split_expired(s: &Vec<Artifact>, cutoff: Option<Timestamp>) -> (r: (Vec<Artifact>, Vec<Artifact>))
    ensures
        views(r.0@) == unexpired(views(s@), cutoff),
        views(r.1@) == expired(views(s@), cutoff),
        r.0@.len() + r.1@.len() == s@.len(),
        views(r.0@).to_multiset().add(views(r.1@).to_multiset()) == views(s@).to_multiset(),
{
    broadcast use vstd::seq_lib::group_to_multiset_ensures;
    broadcast use vstd::multiset::group_multiset_axioms;
    let mut keep: Vec<Artifact> = Vec::new();
    let mut drop: Vec<Artifact> = Vec::new();
    let c = match cutoff {
        Some(c) => c,
        None => {
            let mut i: usize = 0;
            while i < s.len()
                invariant
                    i <= s@.len(),
                    views(keep@) == views(s@).take(i as int),
                    keep@.len() == i,
                decreases s@.len() - i,
            {
                let a = s[i].duplicate();
                let ghost before = keep@;
                keep.push(a);
                assert(views(keep@) =~= views(before).push(s@[i as int]@));
                i = i + 1;
                assert(views(keep@) =~= views(s@).take(i as int));
            }
            assert(views(s@).take(i as int) =~= views(s@));
            assert(views(drop@) =~= Seq::<ArtifactView>::empty());
            assert(views(keep@).to_multiset().add(views(drop@).to_multiset()) =~= views(s@).to_multiset());
            return (keep, drop);
        },
    };
    let ghost sv = views(s@);
    let ghost live = |a: ArtifactView| !earlier(a.stored_at, c);
    let ghost dead = |a: ArtifactView| earlier(a.stored_at, c);
    let mut i: usize = 0;
    while i < s.len()
        invariant
            i <= s@.len(),
            sv == views(s@),
            live == (|a: ArtifactView| !earlier(a.stored_at, c)),
            dead == (|a: ArtifactView| earlier(a.stored_at, c)),
            views(keep@) == sv.take(i as int).filter(live),
            views(drop@) == sv.take(i as int).filter(dead),
            keep@.len() + drop@.len() == i,
            views(keep@).to_multiset().add(views(drop@).to_multiset()) == sv.take(i as int).to_multiset(),
        decreases s@.len() - i,
    {
        let ghost keep0 = views(keep@);
        let ghost drop0 = views(drop@);
        proof {
            reveal_with_fuel(Seq::<_>::filter, 1);
            assert(sv.take(i + 1).drop_last() =~= sv.take(i as int));
            assert(sv[i as int] == s@[i as int]@);
        }
        if is_earlier(s[i].stored_at, c) {
            drop.push(s[i].duplicate());
        } else {
            keep.push(s[i].duplicate());
        }
        proof {
            let x = sv[i as int];
            assert(sv.take(i + 1) =~= sv.take(i as int).push(x));
            vstd::seq_lib::to_multiset_build(sv.take(i as int), x);
            vstd::seq_lib::to_multiset_build(drop0, x);
            vstd::seq_lib::to_multiset_build(keep0, x);
            assert(sv.take(i + 1).to_multiset() == sv.take(i as int).to_multiset().insert(x));
            if earlier(x.stored_at, c) {
                assert(views(drop@) =~= drop0.push(x));
                assert(views(keep@) =~= keep0);
                assert(views(drop@).to_multiset() == drop0.to_multiset().insert(x));
            } else {
                assert(views(keep@) =~= keep0.push(x));
                assert(views(drop@) =~= drop0);
                assert(views(keep@).to_multiset() == keep0.to_multiset().insert(x));
            }
            assert(views(keep@).to_multiset().add(views(drop@).to_multiset()) =~= sv.take(i + 1).to_multiset());
        }
        i = i + 1;
        assert(views(keep@) =~= sv.take(i as int).filter(live));
        assert(views(drop@) =~= sv.take(i as int).filter(dead));
    }
    assert(sv.take(i as int) =~= sv);
    (keep, drop)
}

/// The group of each artifact: the first position of its tag.
fn groups(t: &Vec<Artifact>) -> (g: Vec<usize>)
    ensures
        g@.len() == t@.len(),
        forall|i: int| 0 <= i < t@.len() ==> g@[i] == group(views(t@), i),
{
    let ghost tv = views(t@);
    let mut g: Vec<usize> = Vec::new();
    let mut i: usize = 0;
    while i < t.len()
        invariant
            i <= t@.len(),
            tv == views(t@),
            g@.len() == i,
            forall|k: int| 0 <= k < i ==> g@[k] == group(tv, k),
        decreases t@.len() - i,
    {
        let ghost tag = tv[i as int].tag;
        let mut j: usize = 0;
        while j < i && !text_eq(t[j].tag.as_str(), t[i].tag.as_str())
            invariant
                j <= i < t@.len(),
                tv == views(t@),
                tag == tv[i as int].tag,
                first_with_tag(tv, tag, 0) == first_with_tag(tv, tag, j as int),
            decreases i - j,
        {
            assert(tv[j as int].tag == t@[j as int].tag@);
            j = j + 1;
        }
        assert(tv[j as int].tag == t@[j as int].tag@);
        assert(tv[i as int].tag == t@[i as int].tag@);
        assert(first_with_tag(tv, tag, j as int) == j);
        g.push(j);
        i = i + 1;
    }
    g
}

/// The rank of each artifact within its tag, newest first.
fn ranks(t: &Vec<Artifact>) -> (r: Vec<usize>)
    ensures
        r@.len() == t@.len(),
        forall|i: int| 0 <= i < t@.len() ==> r@[i] == rank(views(t@), i),
{
    let ghost tv = views(t@);
    let mut r: Vec<usize> = Vec::new();
    let mut i: usize = 0;
    while i < t.len()
        invariant
            i <= t@.len(),
            tv == views(t@),
            r@.len() == i,
            forall|k: int| 0 <= k < i ==> r@[k] == rank(tv, k),
        decreases t@.len() - i,
    {
        let mut count: usize = 0;
        let mut j: usize = 0;
        while j < t.len()
            invariant
                j <= t@.len(),
                i < t@.len(),
                tv == views(t@),
                count == count_ahead(tv, i as int, j as int),
                count <= j,
            decreases t@.len() - j,
        {
            let same_tag = text_eq(t[j].tag.as_str(), t[i].tag.as_str());
            let later = is_earlier(t[i].stored_at, t[j].stored_at);
            let tie = t[j].stored_at == t[i].stored_at && j < i;
            assert(tv[j as int] == t@[j as int]@);
            assert(tv[i as int] == t@[i as int]@);
            if same_tag && (later || tie) {
                count = count + 1;
            }
            j = j + 1;
        }
        r.push(count);
        i = i + 1;
    }
    r
}

/// All positions of `t`, in output order.
fn output_order(t: &Vec<Artifact>, g: &Vec<usize>, r: &Vec<usize>) -> (order: Vec<usize>)
    requires
        g@.len() == t@.len(),
        r@.len() == t@.len(),
        forall|i: int| 0 <= i < t@.len() ==> g@[i] == group(views(t@), i),
        forall|i: int| 0 <= i < t@.len() ==> r@[i] == rank(views(t@), i),
    ensures
        order@.len() == t@.len(),
        forall|p: int| 0 <= p < order@.len() ==> 0 <= #[trigger] order@[p] < t@.len(),
        forall|p: int, q: int| 0 <= p < q < order@.len()
            ==> placed_before(views(t@), #[trigger] order@[p] as int, #[trigger] order@[q] as int),
        forall|i: usize| i < t@.len() ==> #[trigger] order@.contains(i),
        pick(views(t@), ints(order@)).to_multiset() == views(t@).to_multiset(),
{
    let ghost tv = views(t@);
    let mut order: Vec<usize> = Vec::new();
    let mut i: usize = 0;
    assert(pick(tv, ints(order@)) =~= tv.take(0));
    while i < t.len()
        invariant
            i <= t@.len(),
            tv == views(t@),
            g@.len() == t@.len(),
            r@.len() == t@.len(),
            forall|k: int| 0 <= k < t@.len() ==> g@[k] == group(tv, k),
            forall|k: int| 0 <= k < t@.len() ==> r@[k] == rank(tv, k),
            order@.len() == i,
            forall|p: int| 0 <= p < order@.len() ==> 0 <= #[trigger] order@[p] < i,
            forall|p: int, q: int| 0 <= p < q < order@.len()
                ==> placed_before(tv, #[trigger] order@[p] as int, #[trigger] order@[q] as int),
            forall|k: usize| k < i ==> #[trigger] order@.contains(k),
            pick(tv, ints(order@)).to_multiset() == tv.take(i as int).to_multiset(),
        decreases t@.len() - i,
    {
        let gi = g[i];
        let ri = r[i];
        let mut p: usize = 0;
        while p < order.len() && (g[order[p]] < gi || (g[order[p]] == gi && r[order[p]] < ri))
            invariant
                p <= order@.len(),
                i < t@.len(),
                gi == g@[i as int],
                ri == r@[i as int],
                g@.len() == t@.len(),
                r@.len() == t@.len(),
                forall|q: int| 0 <= q < order@.len() ==> 0 <= #[trigger] order@[q] < i,
                forall|k: int| 0 <= k < t@.len() ==> g@[k] == group(tv, k),
                forall|k: int| 0 <= k < t@.len() ==> r@[k] == rank(tv, k),
                forall|q: int| 0 <= q < p ==> placed_before(tv, #[trigger] order@[q] as int, i as int),
            decreases order@.len() - p,
        {
            p = p + 1;
        }
        let ghost old_order = order@;
        proof {
            if p < old_order.len() {
                let k = old_order[p as int] as int;
                lemma_group(tv, k, i as int);
                if group(tv, k) == group(tv, i as int) {
                    lemma_rank_distinct(tv, k, i as int);
                }
                assert(placed_before(tv, i as int, k));
            }
        }
        order.insert(p, i);
        assert(order@ =~= old_order.insert(p as int, i));
        proof {
            broadcast use vstd::seq_lib::group_to_multiset_ensures;
            assert(pick(tv, ints(order@)) =~= pick(tv, ints(old_order)).insert(p as int, tv[i as int]));
            assert(tv.take(i + 1) =~= tv.take(i as int).push(tv[i as int]));
        }
        assert forall|a: int, b: int| 0 <= a < b < order@.len()
            implies placed_before(tv, #[trigger] order@[a] as int, #[trigger] order@[b] as int) by {
            if b == p {
                assert(order@[a] == old_order[a]);
            } else if a == p {
                assert(order@[b] == old_order[b - 1]);
                if b - 1 > p {
                    assert(placed_before(tv, old_order[p as int] as int, old_order[b - 1] as int));
                }
            } else {
                let x = if a < p { a } else { a - 1 };
                let y = if b < p { b } else { b - 1 };
                assert(order@[a] == old_order[x]);
                assert(order@[b] == old_order[y]);
                assert(placed_before(tv, old_order[x] as int, old_order[y] as int));
            }
        }
        assert forall|k: usize| k < i + 1 implies #[trigger] order@.contains(k) by {
            if k == i {
                assert(order@[p as int] == i);
            } else {
                assert(old_order.contains(k));
                let q = choose|q: int| 0 <= q < old_order.len() && old_order[q] == k;
                if q < p {
                    assert(order@[q] == k);
                } else {
                    assert(order@[q + 1] == k);
                }
            }
        }
        i = i + 1;
    }
    assert(tv.take(i as int) =~= tv);
    order
}

/// The index left by cleaning, and the artifacts removed. With a cutoff, the
/// artifacts stored before it are removed first, in index order. With a
/// count `n` per tag, of the rest each tag keeps its `n` newest (at equal
/// instants the earlier in the index counts as newer); the kept ones form the
/// new index and the others follow the expired ones among the removed, both
/// arranged by tag in order of first occurrence and newest first within a tag.
/// Nothing is lost: the two together hold as many artifacts as the index did.
pub fn clean(index: &Index, cutoff: Option<Timestamp>, keep_per_tag: Option<usize>) -> (r: (Index, Vec<Artifact>))
    ensures
        ({
            let t = unexpired(index@, cutoff);
            match keep_per_tag {
                None => r.0@ == t && views(r.1@) == expired(index@, cutoff),
                Some(n) => exists|ki: Seq<int>, ri: Seq<int>|
                    {
                        &&& #[trigger] arranged(t, ki, n as nat, true)
                        &&& #[trigger] arranged(t, ri, n as nat, false)
                        &&& r.0@ == pick(t, ki)
                        &&& views(r.1@) == expired(index@, cutoff) + pick(t, ri)
                    },
            }
        }),
        r.0@.len() + r.1@.len() == index@.len(),
        (views(r.1@) + r.0@).to_multiset() == index@.to_multiset(),
{
    broadcast use vstd::seq_lib::lemma_multiset_commutative;
    broadcast use vstd::multiset::group_multiset_axioms;
    let (aged, expired_ones) = split_expired(&index.artifacts, cutoff);
    let n = match keep_per_tag {
        None => {
            assert((views(expired_ones@) + views(aged@)).to_multiset() =~= index@.to_multiset());
            return (Index { artifacts: aged }, expired_ones);
        },
        Some(n) => n,
    };
    let ghost t = views(aged@);
    let g = groups(&aged);
    let rk = ranks(&aged);
    let order = output_order(&aged, &g, &rk);
    let mut kept: Vec<Artifact> = Vec::new();
    let mut removed = expired_ones;
    let ghost gone = views(removed@);
    let ghost mut ki: Seq<int> = Seq::empty();
    let ghost mut ri: Seq<int> = Seq::empty();
    let ghost mut kp: Seq<int> = Seq::empty();
    let ghost mut rp: Seq<int> = Seq::empty();
    let mut p: usize = 0;
    assert(pick(t, ints(order@).take(0)) =~= Seq::<ArtifactView>::empty());
    assert(pick(t, ki) =~= Seq::<ArtifactView>::empty());
    assert(pick(t, ri) =~= Seq::<ArtifactView>::empty());
    proof {
        broadcast use vstd::seq_lib::group_to_multiset_ensures;
        let e = Seq::<ArtifactView>::empty();
        assert(e.to_multiset().len() == 0);
        assert(e.to_multiset() =~= vstd::multiset::Multiset::empty());
    }
    while p < order.len()
        invariant
            p <= order@.len(),
            t == views(aged@),
            order@.len() == aged@.len(),
            rk@.len() == aged@.len(),
            forall|i: int| 0 <= i < aged@.len() ==> rk@[i] == rank(t, i),
            forall|q: int| 0 <= q < order@.len() ==> 0 <= #[trigger] order@[q] < aged@.len(),
            forall|q1: int, q2: int| 0 <= q1 < q2 < order@.len()
                ==> placed_before(t, #[trigger] order@[q1] as int, #[trigger] order@[q2] as int),
            ki.len() == kp.len(),
            ri.len() == rp.len(),
            forall|x: int| 0 <= x < kp.len() ==> 0 <= #[trigger] kp[x] < p && ki[x] == order@[kp[x]] as int,
            forall|x: int, y: int| 0 <= x < y < kp.len() ==> #[trigger] kp[x] < #[trigger] kp[y],
            forall|x: int| 0 <= x < rp.len() ==> 0 <= #[trigger] rp[x] < p && ri[x] == order@[rp[x]] as int,
            forall|x: int, y: int| 0 <= x < y < rp.len() ==> #[trigger] rp[x] < #[trigger] rp[y],
            forall|x: int| 0 <= x < ki.len() ==> selected(t, n as nat, true, #[trigger] ki[x]),
            forall|x: int| 0 <= x < ri.len() ==> selected(t, n as nat, false, #[trigger] ri[x]),
            forall|y: int| 0 <= y < p && selected(t, n as nat, true, order@[y] as int) ==> ki.contains(#[trigger] order@[y] as int),
            forall|y: int| 0 <= y < p && selected(t, n as nat, false, order@[y] as int) ==> ri.contains(#[trigger] order@[y] as int),
            views(kept@) == pick(t, ki),
            views(removed@) == gone + pick(t, ri),
            kept@.len() + removed@.len() == gone.len() + p,
            pick(t, ints(order@)).to_multiset() == t.to_multiset(),
            pick(t, ki).to_multiset().add(pick(t, ri).to_multiset()) == pick(t, ints(order@).take(p as int)).to_multiset(),
        decreases order@.len() - p,
    {
        let k = order[p];
        let a = aged[k].duplicate();
        assert(t[k as int] == a@);
        let ghost ki0 = ki;
        let ghost ri0 = ri;
        if rk[k] < n {
            let ghost before = kept@;
            kept.push(a);
            proof {
                ki = ki.push(k as int);
                kp = kp.push(p as int);
                assert(views(kept@) =~= views(before).push(a@));
                assert(pick(t, ki) =~= pick(t, ki0).push(t[k as int]));
            }
        } else {
            let ghost before = removed@;
            removed.push(a);
            proof {
                ri = ri.push(k as int);
                rp = rp.push(p as int);
                assert(views(removed@) =~= views(before).push(a@));
                assert(pick(t, ri) =~= pick(t, ri0).push(t[k as int]));
                assert(gone + pick(t, ri) =~= (gone + pick(t, ri0)).push(t[k as int]));
            }
        }
        proof {
            let x = t[k as int];
            assert(pick(t, ints(order@).take(p + 1)) =~= pick(t, ints(order@).take(p as int)).push(x));
            vstd::seq_lib::to_multiset_build(pick(t, ints(order@).take(p as int)), x);
            vstd::seq_lib::to_multiset_build(pick(t, ki0), x);
            vstd::seq_lib::to_multiset_build(pick(t, ri0), x);
            if rk@[k as int] < n {
                assert(pick(t, ri) == pick(t, ri0));
            } else {
                assert(pick(t, ki) == pick(t, ki0));
            }
            assert(pick(t, ki).to_multiset().add(pick(t, ri).to_multiset()) =~= pick(t, ints(order@).take(p + 1)).to_multiset());
            assert forall|y: int| 0 <= y < p + 1 && selected(t, n as nat, true, order@[y] as int) implies ki.contains(#[trigger] order@[y] as int) by {
                if y == p {
                    assert(ki[ki.len() - 1] == order@[y] as int);
                } else {
                    assert(ki0.contains(order@[y] as int));
                    let x = choose|x: int| 0 <= x < ki0.len() && ki0[x] == order@[y] as int;
                    assert(ki[x] == order@[y] as int);
                }
            }
            assert forall|y: int| 0 <= y < p + 1 && selected(t, n as nat, false, order@[y] as int) implies ri.contains(#[trigger] order@[y] as int) by {
                if y == p {
                    assert(ri[ri.len() - 1] == order@[y] as int);
                } else {
                    assert(ri0.contains(order@[y] as int));
                    let x = choose|x: int| 0 <= x < ri0.len() && ri0[x] == order@[y] as int;
                    assert(ri[x] == order@[y] as int);
                }
            }
        }
        p = p + 1;
    }
    proof {
        assert forall|x: int, y: int| 0 <= x < y < ki.len() implies placed_before(t, #[trigger] ki[x], #[trigger] ki[y]) by {
            assert(kp[x] < kp[y]);
            assert(placed_before(t, order@[kp[x]] as int, order@[kp[y]] as int));
        }
        assert forall|x: int, y: int| 0 <= x < y < ri.len() implies placed_before(t, #[trigger] ri[x], #[trigger] ri[y]) by {
            assert(rp[x] < rp[y]);
            assert(placed_before(t, order@[rp[x]] as int, order@[rp[y]] as int));
        }
        assert forall|i: int| 0 <= i < t.len() && #[trigger] selected(t, n as nat, true, i) implies ki.contains(i) by {
            assert(order@.contains(i as usize));
            let y = choose|y: int| 0 <= y < order@.len() && order@[y] == i as usize;
            assert(ki.contains(order@[y] as int));
        }
        assert forall|i: int| 0 <= i < t.len() && #[trigger] selected(t, n as nat, false, i) implies ri.contains(i) by {
            assert(order@.contains(i as usize));
            let y = choose|y: int| 0 <= y < order@.len() && order@[y] == i as usize;
            assert(ri.contains(order@[y] as int));
        }
        assert forall|x: int| 0 <= x < ki.len() implies 0 <= #[trigger] ki[x] < t.len() && selected(t, n as nat, true, ki[x]) by {
            assert(0 <= kp[x] < p);
        }
        assert forall|x: int| 0 <= x < ri.len() implies 0 <= #[trigger] ri[x] < t.len() && selected(t, n as nat, false, ri[x]) by {
            assert(0 <= rp[x] < p);
        }
        assert(arranged(t, ki, n as nat, true));
        assert(arranged(t, ri, n as nat, false));
        assert(t == unexpired(index@, cutoff));
        assert(views(kept@) == pick(t, ki));
        assert(views(removed@) == expired(index@, cutoff) + pick(t, ri));
        assert(ints(order@).take(p as int) =~= ints(order@));
        assert((views(removed@) + views(kept@)).to_multiset() =~= index@.to_multiset());
    }
    (Index { artifacts: kept }, removed)
}

} // verus!
