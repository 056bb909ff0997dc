//! Laws that say what each operation is for, in terms of its inputs and
//! results: instant order, exact tag filtering, prefix lookup of ids, the
//! file name of a path, and the shape of the listing report.

use vstd::prelude::*;

use crate::clean::{ahead, expired, lemma_rank_distinct, rank, unexpired};
use crate::model::{earlier, ArtifactView, Timestamp};
use crate::paths::{file_name, last_sep, parent_dir, cur_dir, repo_name_of, sep};
use crate::query::{first_match, found_by, lemma_first_match_from, listing, listed};
use crate::report::{list_line, list_lines, list_text, clean_line, clean_lines, clean_text};
use crate::text::{bytes_lt, bytes_lt_at, decimal, hex, lemma_hex_len, lossy_text, starts_with};

verus! {

/// Instants are ordered as chrono orders them: a later second is later
/// whatever the nanoseconds, and within one second the nanoseconds decide.
pub proof fn law_earlier_follows_seconds_first(a: Timestamp, b: Timestamp)
    ensures
        a.secs < b.secs ==> earlier(a, b),
        b.secs < a.secs ==> !earlier(a, b),
        a.secs == b.secs ==> (earlier(a, b) <==> a.nanos < b.nanos),
        !earlier(a, a),
{
}

/// Keeping `n` per tag ranks an artifact stored in a later second ahead of
/// every artifact of its tag stored in an earlier second, so it is kept
/// whenever the older one is.
pub proof fn law_later_second_ranks_first(t: Seq<ArtifactView>, n: nat, i: int, j: int)
    requires
        0 <= i < t.len(),
        0 <= j < t.len(),
        t[i].tag == t[j].tag,
        t[i].stored_at.secs < t[j].stored_at.secs,
    ensures
        rank(t, j) < rank(t, i),
        rank(t, i) < n ==> rank(t, j) < n,
{
    law_earlier_follows_seconds_first(t[i].stored_at, t[j].stored_at);
    assert(ahead(t, j, i));
    lemma_rank_distinct(t, i, j);
}

/// Cleaning by age keeps every artifact stored in a later second than the
/// cutoff and removes every artifact stored in an earlier second.
pub proof fn law_cutoff_by_seconds(s: Seq<ArtifactView>, c: Timestamp, i: int)
    requires
        0 <= i < s.len(),
    ensures
        c.secs < s[i].stored_at.secs ==> unexpired(s, Some(c)).contains(s[i]),
        s[i].stored_at.secs < c.secs ==> expired(s, Some(c)).contains(s[i]),
{
    law_earlier_follows_seconds_first(s[i].stored_at, c);
    if c.secs < s[i].stored_at.secs {
        s.lemma_filter_contains(|a: ArtifactView| !earlier(a.stored_at, c), i);
    }
    if s[i].stored_at.secs < c.secs {
        s.lemma_filter_contains(|a: ArtifactView| earlier(a.stored_at, c), i);
    }
}

/// A tag filter is exact: every artifact listed under it has that very tag,
/// and every commit filter is a prefix of the commit of each artifact listed.
/// Conversely, each artifact with the tag whose commit begins with the
/// commit filter is listed.
pub proof fn law_filters_are_exact(s: Seq<ArtifactView>, commit: Option<Seq<char>>, tag: Seq<char>)
    ensures
        forall|k: int| 0 <= k < listing(s, commit, Some(tag)).len()
            ==> (#[trigger] listing(s, commit, Some(tag))[k]).tag == tag,
        forall|k: int| 0 <= k < listing(s, commit, Some(tag)).len()
            ==> (commit matches Some(c) ==> starts_with((#[trigger] listing(s, commit, Some(tag))[k]).commit, c)),
        forall|i: int| 0 <= i < s.len() && #[trigger] s[i].tag == tag
            && (commit matches Some(c) ==> starts_with(s[i].commit, c))
            ==> listing(s, commit, Some(tag)).contains(s[i]),
{
    let f = |a: ArtifactView| listed(a, commit, Some(tag));
    assert forall|k: int| 0 <= k < listing(s, commit, Some(tag)).len() implies
        (#[trigger] listing(s, commit, Some(tag))[k]).tag == tag
        && (commit matches Some(c) ==> starts_with(listing(s, commit, Some(tag))[k].commit, c)) by {
        s.lemma_filter_pred(f, k);
    }
    assert forall|i: int| 0 <= i < s.len() && #[trigger] s[i].tag == tag
        && (commit matches Some(c) ==> starts_with(s[i].commit, c))
        implies listing(s, commit, Some(tag)).contains(s[i]) by {
        s.lemma_filter_contains(f, i);
    }
}

/// A text begins with itself.
pub proof fn law_text_starts_with_itself(x: Seq<char>)
    ensures
        starts_with(x, x),
{
    assert(vstd::utf8::encode_utf8(x) =~= vstd::utf8::encode_utf8(x).subrange(0, vstd::utf8::encode_utf8(x).len() as int));
}

/// `show` finds an artifact whenever some id begins with the request, of
/// whatever length; what it finds is the first artifact whose id begins with
/// the request; and it refuses only where no id does.
pub proof fn law_show_matches_any_prefix(s: Seq<ArtifactView>, id: Seq<char>)
    ensures
        (exists|i: int| 0 <= i < s.len() && starts_with(#[trigger] s[i].id, id)) ==> first_match(s, id) is Some,
        first_match(s, id) matches Some(i) ==> {
            &&& 0 <= i < s.len()
            &&& starts_with(s[i].id, id)
            &&& forall|j: int| 0 <= j < i ==> !starts_with(#[trigger] s[j].id, id)
        },
        first_match(s, id) is None ==> forall|j: int| 0 <= j < s.len() ==> !starts_with(#[trigger] s[j].id, id),
{
    law_text_starts_with_itself(id);
    lemma_first_match_from(s, id, 0);
    if exists|i: int| 0 <= i < s.len() && starts_with(#[trigger] s[i].id, id) {
        let i = choose|i: int| 0 <= i < s.len() && starts_with(#[trigger] s[i].id, id);
        assert(found_by(s[i], id));
    }
    if first_match(s, id) is Some {
        let i = first_match(s, id).unwrap();
        assert(found_by(s[i], id));
        assert forall|j: int| 0 <= j < i implies !starts_with(#[trigger] s[j].id, id) by {
            assert(!found_by(s[j], id));
        }
    }
}

proof fn lemma_last_sep_append(p: Seq<u8>, n: Seq<u8>)
    requires
        forall|k: int| 0 <= k < n.len() ==> n[k] != sep(),
    ensures
        last_sep(p + n) == last_sep(p),
    decreases n.len(),
{
    if n.len() == 0 {
        assert(p + n =~= p);
    } else {
        assert((p + n).drop_last() =~= p + n.drop_last());
        assert((p + n).last() == n.last());
        lemma_last_sep_append(p, n.drop_last());
    }
}

/// A component other than `.` and `..` at the end of a path is the path's
/// file name, whether alone, after a directory, or followed by a separator;
/// a name that merely begins with a dot is a name like any other. It is the
/// repository name that is recorded, read as UTF-8.
pub proof fn law_last_component_is_file_name(base: Seq<u8>, n: Seq<u8>)
    requires
        n.len() > 0,
        forall|k: int| 0 <= k < n.len() ==> n[k] != sep(),
        n != cur_dir(),
        n != parent_dir(),
    ensures
        file_name(n) == Some(n),
        file_name(base.push(sep()) + n) == Some(n),
        file_name((base.push(sep()) + n).push(sep())) == Some(n),
        repo_name_of(base.push(sep()) + n) == lossy_text(n),
{
    let e = Seq::<u8>::empty();
    lemma_last_sep_append(e, n);
    assert(e + n =~= n);
    assert(n.subrange(0, n.len() as int) =~= n);
    let q = base.push(sep()) + n;
    lemma_last_sep_append(base.push(sep()), n);
    assert(q.subrange(base.len() + 1int, q.len() as int) =~= n);
    let r = q.push(sep());
    assert(last_sep(r) == q.len());
    assert(r.subrange(q.len() + 1int, r.len() as int) =~= Seq::<u8>::empty());
    assert(r.take(q.len() as int) =~= q);
}

proof fn lemma_list_lines_concat(a: Seq<ArtifactView>, b: Seq<ArtifactView>)
    ensures
        list_lines(a + b) == list_lines(a) + list_lines(b),
    decreases b.len(),
{
    if b.len() == 0 {
        assert(a + b =~= a);
        assert(list_lines(a) + list_lines(b) =~= list_lines(a));
    } else {
        lemma_list_lines_concat(a, b.drop_last());
        assert((a + b).drop_last() =~= a + b.drop_last());
        assert(list_lines(a + b) =~= list_lines(a) + list_lines(b));
    }
}

proof fn lemma_clean_lines_concat(a: Seq<ArtifactView>, b: Seq<ArtifactView>)
    ensures
        clean_lines(a + b) == clean_lines(a) + clean_lines(b),
    decreases b.len(),
{
    if b.len() == 0 {
        assert(a + b =~= a);
        assert(clean_lines(a) + clean_lines(b) =~= clean_lines(a));
    } else {
        lemma_clean_lines_concat(a, b.drop_last());
        assert((a + b).drop_last() =~= a + b.drop_last());
        assert(clean_lines(a + b) =~= clean_lines(a) + clean_lines(b));
    }
}

/// `t` occurs in `text` starting at position `k`.
pub open spec fn occurs_at(text: Seq<char>, t: Seq<char>, k: int) -> bool {
    0 <= k && k + t.len() <= text.len() && text.subrange(k, k + t.len()) == t
}

/// The opening lines of the report of a listing of `count` artifacts.
pub open spec fn list_head(count: nat) -> Seq<char> {
    decimal(count) + " artifact(s):\n"@ + "\n"@
}

proof fn lemma_list_line_occurs(s: Seq<ArtifactView>, i: int)
    requires
        0 <= i < s.len(),
    ensures
        occurs_at(list_text(s), list_line(s[i]), (list_head(s.len()) + list_lines(s.take(i))).len() as int),
{
    let head = list_head(s.len());
    let front = s.take(i);
    let one = seq![s[i]];
    let back = s.skip(i + 1);
    assert(s =~= front + one + back);
    lemma_list_lines_concat(front + one, back);
    lemma_list_lines_concat(front, one);
    assert(one.drop_last() =~= Seq::<ArtifactView>::empty());
    assert(list_lines(one.drop_last()) =~= Seq::<char>::empty());
    assert(one.last() == s[i]);
    assert(list_lines(one) =~= list_line(s[i]));
    let k = (head + list_lines(front)).len() as int;
    let text = list_text(s);
    assert(text =~= head + list_lines(front) + list_line(s[i]) + list_lines(back));
    assert(text.subrange(k, k + list_line(s[i]).len()) =~= list_line(s[i]));
}

/// The listing report of a non-empty listing opens with the count of
/// artifacts and holds the line of every artifact, in order, one after the
/// other; only the empty listing is reported as finding nothing.
pub proof fn law_list_report_names_every_artifact(s: Seq<ArtifactView>)
    ensures
        s.len() == 0 ==> list_text(s) == "No artifacts found.\n"@,
        s.len() > 0 ==> list_text(s) == list_head(s.len()) + list_lines(s),
        s.len() > 0 ==> list_text(s).take(decimal(s.len()).len() as int) == decimal(s.len()),
        forall|i: int| 0 <= i < s.len() ==> occurs_at(
            list_text(s),
            list_line(#[trigger] s[i]),
            (list_head(s.len()) + list_lines(s.take(i))).len() as int,
        ),
{
    if s.len() > 0 {
        assert(list_text(s).take(decimal(s.len()).len() as int) =~= decimal(s.len()));
    }
    assert forall|i: int| 0 <= i < s.len() implies occurs_at(
        list_text(s),
        list_line(#[trigger] s[i]),
        (list_head(s.len()) + list_lines(s.take(i))).len() as int,
    ) by {
        lemma_list_line_occurs(s, i);
    }
}

/// The opening line of the report of a cleaning that removed `count` artifacts.
pub open spec fn clean_head(count: nat, dry_run: bool) -> Seq<char> {
    (if dry_run { "Would remove"@ } else { "Removed"@ }) + " "@ + decimal(count) + " artifact(s):\n"@
}

proof fn lemma_clean_line_occurs(s: Seq<ArtifactView>, dry_run: bool, i: int)
    requires
        0 <= i < s.len(),
    ensures
        occurs_at(
            clean_text(s, dry_run),
            clean_line(s[i]),
            (clean_head(s.len(), dry_run) + clean_lines(s.take(i))).len() as int,
        ),
{
    let head = clean_head(s.len(), dry_run);
    let front = s.take(i);
    let one = seq![s[i]];
    let back = s.skip(i + 1);
    assert(s =~= front + one + back);
    lemma_clean_lines_concat(front + one, back);
    lemma_clean_lines_concat(front, one);
    assert(one.drop_last() =~= Seq::<ArtifactView>::empty());
    assert(clean_lines(one.drop_last()) =~= Seq::<char>::empty());
    assert(one.last() == s[i]);
    assert(clean_lines(one) =~= clean_line(s[i]));
    let k = (head + clean_lines(front)).len() as int;
    let text = clean_text(s, dry_run);
    assert(text =~= head + clean_lines(front) + clean_line(s[i]) + clean_lines(back));
    assert(text.subrange(k, k + clean_line(s[i]).len()) =~= clean_line(s[i]));
}

/// The report of a cleaning that removed something opens with what was done
/// and how many, and holds the line of every removed artifact, in order;
/// only an empty removal is reported as nothing to clean.
pub proof fn law_clean_report_names_every_artifact(s: Seq<ArtifactView>, dry_run: bool)
    ensures
        s.len() == 0 ==> clean_text(s, dry_run) == "Nothing to clean.\n"@,
        s.len() > 0 ==> clean_text(s, dry_run) == clean_head(s.len(), dry_run) + clean_lines(s),
        forall|i: int| 0 <= i < s.len() ==> occurs_at(
            clean_text(s, dry_run),
            clean_line(#[trigger] s[i]),
            (clean_head(s.len(), dry_run) + clean_lines(s.take(i))).len() as int,
        ),
{
    assert forall|i: int| 0 <= i < s.len() implies occurs_at(
        clean_text(s, dry_run),
        clean_line(#[trigger] s[i]),
        (clean_head(s.len(), dry_run) + clean_lines(s.take(i))).len() as int,
    ) by {
        lemma_clean_line_occurs(s, dry_run, i);
    }
}

/// The value of a decimal digit character.
pub open spec fn digit_value(c: char) -> int {
    (c as u32) - 48
}

/// The value of a run of decimal digit characters.
pub open spec fn numeral_value(s: Seq<char>) -> int
    decreases s.len(),
{
    if s.len() == 0 {
        0
    } else {
        numeral_value(s.drop_last()) * 10 + digit_value(s.last())
    }
}

proof fn lemma_digit_value(d: nat)
    requires
        d < 10,
    ensures
        digit_value(crate::text::digit_char(d)) == d,
{
    assert(('0' as u32) == 48);
    assert(('9' as u32) == 57);
}

/// The decimal numeral of `n` is made of the digits `0` to `9`, reads back
/// as `n`, and has no leading zero.
pub proof fn law_decimal_reads_back(n: nat)
    ensures
        decimal(n).len() > 0,
        forall|i: int| 0 <= i < decimal(n).len() ==> '0' <= #[trigger] decimal(n)[i] <= '9',
        numeral_value(decimal(n)) == n,
        decimal(n)[0] == '0' ==> n == 0,
    decreases n,
{
    if n >= 10 {
        law_decimal_reads_back(n / 10);
        let d = decimal(n);
        let f = decimal((n / 10) as nat);
        assert(d.drop_last() =~= f);
        assert(d[0] == f[0]);
        assert forall|i: int| 0 <= i < d.len() implies '0' <= #[trigger] d[i] <= '9' by {
            if i < f.len() {
                assert(d[i] == f[i]);
            }
        }
        assert((n / 10) * 10 + n % 10 == n);
        lemma_digit_value(n % 10);
        assert(d.last() == crate::text::digit_char(n % 10));
    } else {
        assert(decimal(n).drop_last() =~= Seq::<char>::empty());
        lemma_digit_value(n);
        assert(numeral_value(Seq::<char>::empty()) == 0);
    }
}

/// The value of a lower-case hexadecimal digit character.
pub open spec fn hex_value(c: char) -> int {
    if (c as u32) < 97 { (c as u32) - 48 } else { (c as u32) - 87 }
}

/// Hex text gives each byte as two digits, `0` to `9` and `a` to `f`, high
/// nibble first, that read back as the byte.
pub proof fn law_hex_reads_back(b: Seq<u8>)
    ensures
        hex(b).len() == 2 * b.len(),
        forall|i: int| 0 <= i < hex(b).len() ==> ('0' <= #[trigger] hex(b)[i] <= '9' || 'a' <= hex(b)[i] <= 'f'),
        forall|i: int| 0 <= i < b.len() ==> hex_value(hex(b)[2 * i]) * 16 + hex_value(hex(b)[2 * i + 1]) == #[trigger] b[i],
    decreases b.len(),
{
    lemma_hex_len(b);
    if b.len() > 0 {
        let f = b.drop_last();
        law_hex_reads_back(f);
        lemma_hex_len(f);
        let h = hex(b);
        let g = hex(f);
        assert forall|i: int| 0 <= i < h.len() implies ('0' <= #[trigger] h[i] <= '9' || 'a' <= h[i] <= 'f') by {
            if i < g.len() {
                assert(h[i] == g[i]);
            }
        }
        assert forall|i: int| 0 <= i < b.len() implies hex_value(h[2 * i]) * 16 + hex_value(h[2 * i + 1]) == #[trigger] b[i] by {
            if i < f.len() {
                assert(h[2 * i] == g[2 * i]);
                assert(h[2 * i + 1] == g[2 * i + 1]);
                assert(f[i] == b[i]);
            } else {
                assert(b[i] == b.last());
            }
        }
    }
}

/// Texts are ordered byte by byte: a proper prefix comes first, and
/// otherwise the first differing byte decides.
pub proof fn law_bytes_order_is_lexicographic(a: Seq<u8>, b: Seq<u8>, k: int)
    requires
        0 <= k <= a.len(),
        k <= b.len(),
        forall|i: int| 0 <= i < k ==> a[i] == b[i],
    ensures
        k == a.len() && k < b.len() ==> bytes_lt(a, b),
        k < a.len() && k < b.len() && a[k] < b[k] ==> bytes_lt(a, b),
        k < a.len() && k < b.len() && a[k] < b[k] ==> !bytes_lt(b, a),
{
    if k == a.len() && k < b.len() {
        assert(bytes_lt_at(a, b, k));
    }
    if k < a.len() && k < b.len() && a[k] < b[k] {
        assert(bytes_lt_at(a, b, k));
        crate::text::lemma_bytes_lt_strict(a, b, a);
    }
}

} // verus!
