//! The text that reports each command's outcome, line by line.

use vstd::prelude::*;
use vstd::string::*;
use vstd::utf8::*;

use crate::model::{views, Artifact, ArtifactView};
use crate::query::{texts, WarehouseStats};
use crate::store::short_len;
use crate::text::{byte_prefix, byte_prefix_of, decimal, push_decimal, splits_at};

verus! {

/// The first `n` bytes of `s`, or all of it where it is shorter, as text.
pub open spec fn head(s: Seq<char>, n: int) -> Seq<char> {
    byte_prefix(s, short_len(s, n))
}

/// `head(s, n)` can be cut out of `s`.
pub open spec fn head_fits(s: Seq<char>, n: int) -> bool {
    splits_at(s, short_len(s, n))
}

fn push_head(out: &mut String, s: &str, n: usize)
    requires
        head_fits(s@, n as int),
    ensures
        final(out)@ == old(out)@ + head(s@, n as int),
{
    let len = s.as_bytes().len();
    let k: usize = if len < n { len } else { n };
    let h = byte_prefix_of(s, k);
    out.append(h.as_str());
}

/// The report of a stored artifact.
pub open spec fn stored_text(a: ArtifactView) -> Seq<char> {
    "Stored artifact:\n"@ + "  ID:     "@ + a.id + "\n"@ + "  Tag:    "@ + a.tag + "\n"@
        + "  Commit: "@ + head(a.commit, 12) + "\n"@ + "  Size:   "@ + decimal(a.size_bytes as nat)
        + " bytes\n"@ + "  SHA256: "@ + byte_prefix(a.sha256, 16) + "\u{2026}\n"@
        + if a.description.len() == 0 {
        Seq::empty()
    } else {
        "  Desc:   "@ + a.description + "\n"@
    }
}

/// The report of a stored artifact: id, tag, the first 12 bytes of the
/// commit, size, the first 16 bytes of the hash, and the description if any.
pub fn render_stored(a: &Artifact) -> (r: String)
    requires
        head_fits(a.commit@, 12),
        splits_at(a.sha256@, 16),
    ensures
        r@ == stored_text(a@),
{
    let mut r = String::from_str("Stored artifact:\n");
    r.append("  ID:     ");
    r.append(a.id.as_str());
    r.append("\n");
    r.append("  Tag:    ");
    r.append(a.tag.as_str());
    r.append("\n");
    r.append("  Commit: ");
    push_head(&mut r, a.commit.as_str(), 12);
    r.append("\n");
    r.append("  Size:   ");
    push_decimal(&mut r, a.size_bytes);
    r.append(" bytes\n");
    r.append("  SHA256: ");
    let hash = byte_prefix_of(a.sha256.as_str(), 16);
    r.append(hash.as_str());
    r.append("\u{2026}\n");
    if !a.description.as_str().is_empty() {
        r.append("  Desc:   ");
        r.append(a.description.as_str());
        r.append("\n");
    }
    assert(r@ =~= stored_text(a@));
    r
}

/// One line of a listing.
pub open spec fn list_line(a: ArtifactView) -> Seq<char> {
    "  "@ + a.id + " ["@ + a.tag + "] @"@ + head(a.commit, 8) + " ("@ + decimal(a.size_bytes as nat)
        + " bytes)"@ + (if a.description.len() == 0 {
        Seq::empty()
    } else {
        " \u{2014} "@ + a.description
    }) + "\n"@
}

/// The lines of a listing, one per artifact.
pub open spec fn list_lines(s: Seq<ArtifactView>) -> Seq<char>
    decreases s.len(),
{
    if s.len() == 0 {
        Seq::empty()
    } else {
        list_lines(s.drop_last()) + list_line(s.last())
    }
}

fn push_list_line(r: &mut String, a: &Artifact)
    requires
        head_fits(a.commit@, 8),
    ensures
        final(r)@ == old(r)@ + list_line(a@),
{
    r.append("  ");
    r.append(a.id.as_str());
    r.append(" [");
    r.append(a.tag.as_str());
    r.append("] @");
    push_head(r, a.commit.as_str(), 8);
    r.append(" (");
    push_decimal(r, a.size_bytes);
    r.append(" bytes)");
    if !a.description.as_str().is_empty() {
        r.append(" \u{2014} ");
        r.append(a.description.as_str());
    }
    r.append("\n");
    assert(r@ =~= old(r)@ + list_line(a@));
}

/// The report of a listing.
pub open spec fn list_text(s: Seq<ArtifactView>) -> Seq<char> {
    if s.len() == 0 {
        "No artifacts found.\n"@
    } else {
        decimal(s.len()) + " artifact(s):\n"@ + "\n"@ + list_lines(s)
    }
}

/// The report of a listing: the count, then a line per artifact with id,
/// tag, the first 8 bytes of the commit, size and description.
pub fn render_list(artifacts: &Vec<Artifact>) -> (r: String)
    requires
        forall|i: int| 0 <= i < artifacts@.len() ==> head_fits(#[trigger] artifacts@[i].commit@, 8),
    ensures
        r@ == list_text(views(artifacts@)),
{
    let ghost s = views(artifacts@);
    if artifacts.len() == 0 {
        return String::from_str("No artifacts found.\n");
    }
    let mut r = String::new();
    push_decimal(&mut r, artifacts.len() as u64);
    r.append(" artifact(s):\n");
    r.append("\n");
    let ghost start = r@;
    let mut i: usize = 0;
    while i < artifacts.len()
        invariant
            i <= artifacts@.len(),
            s == views(artifacts@),
            forall|k: int| 0 <= k < artifacts@.len() ==> head_fits(#[trigger] artifacts@[k].commit@, 8),
            r@ == start + list_lines(s.take(i as int)),
        decreases artifacts@.len() - i,
    {
        let a = &artifacts[i];
        let ghost before = r@;
        push_list_line(&mut r, a);
        assert(s[i as int] == a@);
        assert(s.take(i + 1).drop_last() =~= s.take(i as int));
        assert(r@ =~= before + list_line(a@));
        i = i + 1;
    }
    assert(s.take(i as int) =~= s);
    assert(r@ =~= list_text(s));
    r
}

/// The report of an artifact's contents.
pub open spec fn show_text(a: ArtifactView, content: Seq<char>) -> Seq<char> {
    "\u{2500}\u{2500} "@ + a.id + " ["@ + a.tag + "] \u{2500}\u{2500}\n"@ + "\n"@ + content + "\n"@
}

/// The report of an artifact's contents: a header with id and tag, a blank line, the contents.
pub fn render_show(a: &Artifact, content: &str) -> (r: String)
    ensures
        r@ == show_text(a@, content@),
{
    let mut r = String::from_str("\u{2500}\u{2500} ");
    r.append(a.id.as_str());
    r.append(" [");
    r.append(a.tag.as_str());
    r.append("] \u{2500}\u{2500}\n");
    r.append("\n");
    r.append(content);
    r.append("\n");
    assert(r@ =~= show_text(a@, content@));
    r
}

/// One line of the report of a cleaning.
pub open spec fn clean_line(a: ArtifactView) -> Seq<char> {
    "  - "@ + a.id + " ["@ + a.tag + "] ("@ + decimal(a.size_bytes as nat) + " bytes)\n"@
}

/// The lines of the report of a cleaning, one per removed artifact.
pub open spec fn clean_lines(s: Seq<ArtifactView>) -> Seq<char>
    decreases s.len(),
{
    if s.len() == 0 {
        Seq::empty()
    } else {
        clean_lines(s.drop_last()) + clean_line(s.last())
    }
}

/// The report of a cleaning.
pub open spec fn clean_text(s: Seq<ArtifactView>, dry_run: bool) -> Seq<char> {
    if s.len() == 0 {
        "Nothing to clean.\n"@
    } else {
        (if dry_run { "Would remove"@ } else { "Removed"@ }) + " "@ + decimal(s.len())
            + " artifact(s):\n"@ + clean_lines(s)
    }
}

/// The report of a cleaning: what was (or, in a dry run, would be) removed.
pub fn render_clean(removed: &Vec<Artifact>, dry_run: bool) -> (r: String)
    ensures
        r@ == clean_text(views(removed@), dry_run),
{
    let ghost s = views(removed@);
    if removed.len() == 0 {
        return String::from_str("Nothing to clean.\n");
    }
    let mut r = if dry_run {
        String::from_str("Would remove")
    } else {
        String::from_str("Removed")
    };
    r.append(" ");
    push_decimal(&mut r, removed.len() as u64);
    r.append(" artifact(s):\n");
    let ghost start = r@;
    let mut i: usize = 0;
    while i < removed.len()
        invariant
            i <= removed@.len(),
            s == views(removed@),
            r@ == start + clean_lines(s.take(i as int)),
        decreases removed@.len() - i,
    {
        let a = &removed[i];
        let ghost before = r@;
        r.append("  - ");
        r.append(a.id.as_str());
        r.append(" [");
        r.append(a.tag.as_str());
        r.append("] (");
        push_decimal(&mut r, a.size_bytes);
        r.append(" bytes)\n");
        assert(s[i as int] == a@);
        assert(s.take(i + 1).drop_last() =~= s.take(i as int));
        assert(r@ =~= before + clean_line(a@));
        i = i + 1;
    }
    assert(s.take(i as int) =~= s);
    assert(r@ =~= clean_text(s, dry_run));
    r
}

/// Texts joined with `sep` between each two.
pub open spec fn join(t: Seq<Seq<char>>, sep: Seq<char>) -> Seq<char>
    decreases t.len(),
{
    if t.len() == 0 {
        Seq::empty()
    } else if t.len() == 1 {
        t[0]
    } else {
        join(t.drop_last(), sep) + sep + t.last()
    }
}

/// The report of the warehouse's statistics.
pub open spec fn stats_text(st: WarehouseStats) -> Seq<char> {
    "Harbor warehouse:\n"@ + "  Artifacts: "@ + decimal(st.artifact_count as nat) + "\n"@
        + "  Total size: "@ + decimal(st.total_size_bytes as nat) + " bytes\n"@
        + "  Unique tags: "@ + decimal(st.unique_tags as nat) + "\n"@ + "  Unique commits: "@
        + decimal(st.unique_commits as nat) + "\n"@ + if st.tags@.len() == 0 {
        Seq::empty()
    } else {
        "  Tags: "@ + join(texts(st.tags@), ", "@) + "\n"@
    }
}

/// The report of the warehouse's statistics: the counts, and the tags if any.
pub fn render_stats(st: &WarehouseStats) -> (r: String)
    ensures
        r@ == stats_text(*st),
{
    let mut r = String::from_str("Harbor warehouse:\n");
    r.append("  Artifacts: ");
    push_decimal(&mut r, st.artifact_count as u64);
    r.append("\n");
    r.append("  Total size: ");
    push_decimal(&mut r, st.total_size_bytes);
    r.append(" bytes\n");
    r.append("  Unique tags: ");
    push_decimal(&mut r, st.unique_tags as u64);
    r.append("\n");
    r.append("  Unique commits: ");
    push_decimal(&mut r, st.unique_commits as u64);
    r.append("\n");
    if st.tags.len() > 0 {
        let ghost t = texts(st.tags@);
        r.append("  Tags: ");
        let ghost start = r@;
        r.append(st.tags[0].as_str());
        assert(t.take(1).len() == 1);
        assert(join(t.take(1), ", "@) == t[0]);
        let mut i: usize = 1;
        while i < st.tags.len()
            invariant
                1 <= i <= st.tags@.len(),
                t == texts(st.tags@),
                r@ == start + join(t.take(i as int), ", "@),
            decreases st.tags@.len() - i,
        {
            r.append(", ");
            r.append(st.tags[i].as_str());
            assert(t.take(i + 1).drop_last() =~= t.take(i as int));
            assert(t.take(i + 1).last() == st.tags@[i as int]@);
            i = i + 1;
            assert(r@ =~= start + join(t.take(i as int), ", "@));
        }
        assert(t.take(i as int) =~= t);
        r.append("\n");
    }
    assert(r@ =~= stats_text(*st));
    r
}

} // verus!
