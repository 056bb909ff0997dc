//! Making a new artifact from stored data: checking the input, reading the
//! commit that git reports, hashing the data and naming the artifact.

use vstd::prelude::*;
use vstd::string::*;
use vstd::utf8::*;
use sha2::Digest;

use crate::model::{Artifact, ArtifactView, HarborError, Timestamp};
use crate::text::{
    byte_prefix, byte_prefix_of, hex, hex_lower, lemma_ascii_prefix, lemma_hex_ascii, lemma_hex_len, lossy_text, opt_text, splits_at,
    text_from_utf8_lossy, text_trim, trimmed,
};

verus! {

/// The message of the refusal of empty standard input.
pub open spec fn no_input_message() -> Seq<char> {
    "No input data. Provide --file or pipe to stdin."@
}

/// Data read from standard input must not be empty; data from a file may be.
pub fn require_input(data: &[u8], from_stdin: bool) -> (r: Result<(), HarborError>)
    ensures
        r is Ok <==> !(from_stdin && data@.len() == 0),
        r matches Err(e) ==> e.is_validation(no_input_message()),
{
    if from_stdin && data.len() == 0 {
        return Err(HarborError::Validation(String::from_str("No input data. Provide --file or pipe to stdin.")));
    }
    Ok(())
}

/// The message given where git names no commit.
pub open spec fn no_commit_message() -> Seq<char> {
    "Not a git repository or no commits yet"@
}

/// The current commit from what `git rev-parse HEAD` reported: its standard
/// output read as UTF-8 (invalid sequences replaced) and trimmed, where it succeeded.
pub fn commit_from_git(success: bool, stdout: &[u8]) -> (r: Result<String, HarborError>)
    ensures
        r is Ok <==> success,
        r matches Ok(c) ==> c@ == trimmed(lossy_text(stdout@)),
        r matches Err(e) ==> e.is_validation(no_commit_message()),
{
    if !success {
        return Err(HarborError::Validation(String::from_str("Not a git repository or no commits yet")));
    }
    let text = text_from_utf8_lossy(stdout);
    let commit = text_trim(text.as_str());
    Ok(commit.to_owned())
}

/// The SHA-256 digest of `data`.
pub uninterp spec fn sha256_of(data: Seq<u8>) -> Seq<u8>;

/// `sha2::Sha256::digest` (the one-call form of `new`, `update`, `finalize`):
/// the SHA-256 digest of `data`; the contract names it and states that it is
/// 32 bytes long, as `Sha256`'s output size is.
#[verifier::external_body]
fn sha256_digest(data: &[u8]) -> (d: Vec<u8>)
    ensures
        d@ == sha256_of(data@),
        d@.len() == 32,
{
    sha2::Sha256::digest(data).to_vec()
}

/// `n`, or the length of the UTF-8 encoding of `s` where that is shorter.
pub open spec fn short_len(s: Seq<char>, n: int) -> int {
    let len = encode_utf8(s).len() as int;
    if len < n { len } else { n }
}

/// The id of an artifact: the first 8 bytes of the commit (all of it if it is
/// shorter), an underscore, and the first 8 hex digits of the content hash.
pub open spec fn artifact_id(commit: Seq<char>, digest: Seq<u8>) -> Seq<char> {
    byte_prefix(commit, short_len(commit, 8)) + seq!['_'] + hex(digest).take(8)
}

/// The artifact made of data whose digest and size are given.
pub open spec fn artifact_of(
    digest: Seq<u8>,
    size: u64,
    commit: Seq<char>,
    repo_name: Seq<char>,
    tag: Seq<char>,
    desc: Option<Seq<char>>,
    stored_at: Timestamp,
) -> ArtifactView {
    ArtifactView {
        id: artifact_id(commit, digest),
        repo_name,
        commit,
        tag,
        description: match desc {
            Some(d) => d,
            None => Seq::empty(),
        },
        size_bytes: size,
        sha256: hex(digest),
        stored_at,
    }
}

/// Builds the artifact of data with the given digest and size.
pub fn artifact_from_digest(
    digest: &[u8],
    size: u64,
    commit: &str,
    repo_name: &str,
    tag: &str,
    desc: Option<&str>,
    stored_at: Timestamp,
) -> (a: Artifact)
    requires
        digest@.len() >= 4,
        splits_at(commit@, short_len(commit@, 8)),
    ensures
        a@ == artifact_of(digest@, size, commit@, repo_name@, tag@, opt_text(desc), stored_at),
{
    let full_hash = hex_lower(digest);
    proof {
        lemma_hex_len(digest@);
    }
    let n = commit.as_bytes().len();
    let k: usize = if n < 8 { n } else { 8 };
    let mut id = byte_prefix_of(commit, k);
    proof {
        reveal_strlit("_");
    }
    let ghost head = id@;
    id.append("_");
    let short = full_hash.as_str().substring_char(0, 8);
    assert(short@ =~= hex(digest@).take(8));
    id.append(short);
    assert(head == byte_prefix(commit@, short_len(commit@, 8)));
    assert(id@ =~= artifact_id(commit@, digest@));
    let description = match desc {
        Some(d) => d.to_owned(),
        None => String::new(),
    };
    let a = Artifact {
        id,
        repo_name: repo_name.to_owned(),
        commit: commit.to_owned(),
        tag: tag.to_owned(),
        description,
        size_bytes: size,
        sha256: full_hash,
        stored_at,
    };
    assert(a@.description =~= (match opt_text(desc) {
        Some(d) => d,
        None => Seq::empty(),
    }));
    a
}

/// Builds the artifact that records `data`, stored at `stored_at` under `tag`
/// for `commit` of the repository named `repo_name`.
pub fn new_artifact(
    data: &[u8],
    commit: &str,
    repo_name: &str,
    tag: &str,
    desc: Option<&str>,
    stored_at: Timestamp,
) -> (a: Artifact)
    requires
        splits_at(commit@, short_len(commit@, 8)),
    ensures
        a@ == artifact_of(
            sha256_of(data@),
            data@.len() as u64,
            commit@,
            repo_name@,
            tag@,
            opt_text(desc),
            stored_at,
        ),
        a@.sha256.len() == 64,
        is_ascii_chars(a@.sha256),
        splits_at(a@.sha256, 16),
{
    let digest = sha256_digest(data);
    proof {
        lemma_hex_len(digest@);
        lemma_hex_ascii(digest@);
        lemma_ascii_prefix(hex(digest@), 16);
    }
    artifact_from_digest(digest.as_slice(), data.len() as u64, commit, repo_name, tag, desc, stored_at)
}

} // verus!
