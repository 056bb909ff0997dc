//! The stored records: instants, artifacts, the index, and the library's error.

use vstd::prelude::*;

verus! {

/// An instant as chrono keeps it for `DateTime<Utc>`: whole seconds since the
/// Unix epoch, and the nanoseconds within that second (`nanos` reaches past
/// 999_999_999 only inside a leap second).
#[derive(Clone, Copy, Debug, PartialEq, Eq, Structural)]
pub struct Timestamp {
    pub secs: i64,
    pub nanos: u32,
}

/// `a` comes strictly before `b`: the order of chrono's `DateTime<Utc>`, which
/// compares the second first and then the nanoseconds.
pub open spec fn earlier(a: Timestamp, b: Timestamp) -> bool {
    a.secs < b.secs || (a.secs == b.secs && a.nanos < b.nanos)
}

/// Whether `a` comes strictly before `b`.
pub fn is_earlier(a: Timestamp, b: Timestamp) -> (r: bool)
    ensures
        r == earlier(a, b),
{
    a.secs < b.secs || (a.secs == b.secs && a.nanos < b.nanos)
}

/// One stored build output and what is known of it.
#[derive(Clone, Debug)]
pub struct Artifact {
    pub id: String,
    pub repo_name: String,
    pub commit: String,
    pub tag: String,
    pub description: String,
    pub size_bytes: u64,
    pub sha256: String,
    pub stored_at: Timestamp,
}

/// An artifact with its texts taken as character sequences.
pub struct ArtifactView {
    pub id: Seq<char>,
    pub repo_name: Seq<char>,
    pub commit: Seq<char>,
    pub tag: Seq<char>,
    pub description: Seq<char>,
    pub size_bytes: u64,
    pub sha256: Seq<char>,
    pub stored_at: Timestamp,
}

impl View for Artifact {
    type V = ArtifactView;

    open spec fn view(&self) -> ArtifactView {
        ArtifactView {
            id: self.id@,
            repo_name: self.repo_name@,
            commit: self.commit@,
            tag: self.tag@,
            description: self.description@,
            size_bytes: self.size_bytes,
            sha256: self.sha256@,
            stored_at: self.stored_at,
        }
    }
}

impl Artifact {
    /// A copy of the artifact, field by field.
    pub fn duplicate(&self) -> (r: Artifact)
        ensures
            r@ == self@,
    {
        Artifact {
            id: self.id.clone(),
            repo_name: self.repo_name.clone(),
            commit: self.commit.clone(),
            tag: self.tag.clone(),
            description: self.description.clone(),
            size_bytes: self.size_bytes,
            sha256: self.sha256.clone(),
            stored_at: self.stored_at,
        }
    }
}

/// The views of a run of artifacts.
pub open spec fn views(s: Seq<Artifact>) -> Seq<ArtifactView> {
    s.map_values(|a: Artifact| a@)
}

/// The index of a warehouse: every stored artifact, in the order of storing.
#[derive(Debug)]
pub struct Index {
    pub artifacts: Vec<Artifact>,
}

impl View for Index {
    type V = Seq<ArtifactView>;

    open spec fn view(&self) -> Seq<ArtifactView> {
        views(self.artifacts@)
    }
}

impl Default for Index {
    fn default() -> (r: Index)
        ensures
            r@ == Seq::<ArtifactView>::empty(),
    {
        Index { artifacts: Vec::new() }
    }
}

impl Index {
    /// Records `artifact` after all that the index holds.
    pub fn add(&mut self, artifact: Artifact)
        ensures
            final(self)@ == old(self)@.push(artifact@),
    {
        self.artifacts.push(artifact);
        assert(views(self.artifacts@) =~= views(old(self).artifacts@).push(artifact@));
    }
}

#[verifier::external_type_specification]
#[verifier::external_body]
pub struct ExIoError(std::io::Error);

#[verifier::external_type_specification]
#[verifier::external_body]
pub struct ExJsonError(serde_json::Error);

/// What can go wrong in the warehouse.
#[derive(Debug)]
pub enum HarborError {
    /// A request the warehouse refuses, with the reason.
    Validation(String),
    /// Reading or writing a file, or running git, failed.
    Io(std::io::Error),
    /// The index file could not be read or written as JSON.
    Json(serde_json::Error),
}

impl HarborError {
    /// A validation error with the given message.
    pub open spec fn is_validation(self, message: Seq<char>) -> bool {
        self matches HarborError::Validation(m) && m@ == message
    }

    /// The process exit status that reports this error.
    pub fn exit_code(&self) -> (code: i32)
        ensures
            code == (match self {
                HarborError::Validation(_) => 1i32,
                HarborError::Io(_) => 2i32,
                HarborError::Json(_) => 1i32,
            }),
    {
        match self {
            HarborError::Validation(_) => 1,
            HarborError::Io(_) => 2,
            HarborError::Json(_) => 1,
        }
    }

    /// The machine-readable name of the error's kind.
    pub fn error_code(&self) -> (code: &'static str)
        ensures
            code@ == (match self {
                HarborError::Validation(_) => "validation_error"@,
                HarborError::Io(_) => "io_error"@,
                HarborError::Json(_) => "json_error"@,
            }),
    {
        match self {
            HarborError::Validation(_) => "validation_error",
            HarborError::Io(_) => "io_error",
            HarborError::Json(_) => "json_error",
        }
    }
}

} // verus!
