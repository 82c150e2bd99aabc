//! The files that recovery keeps, and how they are checked.
use vstd::prelude::*;
use crate::api::{clone_optional_text, optional_text};
use crate::error::{CoreError, ErrorView};
use crate::record_store::frames::PatchFrame;
use crate::text::{chars_of, hex, hex_of, join3, padded_decimal, padded_decimal_of, same_text};

verus! {

/// The version of the recovery format.
pub const RECOVERY_FORMAT_VERSION: u32 = 1;

/// The schema of the Record Stores that baselines are copies of.
pub const RECORD_SCHEMA_VERSION: u32 = 5;

/// How many segments are kept for one baseline.
pub const SEGMENTS_PER_BASELINE: usize = 64;

/// How many segments a manifest may name.
pub const MAX_RECOVERY_SEGMENTS: usize = 128;

/// What SHA-256 makes of some bytes.
pub uninterp spec fn sha256_of(bytes: Seq<u8>) -> Seq<u8>;

/// `sha2::Sha256::digest`: 32 bytes that depend on the input alone.
#[verifier::external_body]
fn sha256(bytes: &[u8]) -> (r: Vec<u8>)
    ensures
        r@ == sha256_of(bytes@),
        r@.len() == 32,
{
    <sha2::Sha256 as sha2::Digest>::digest(bytes).to_vec()
}

/// The checksum of some bytes: their SHA-256 digest in hexadecimal notation.
pub open spec fn checksum_of(bytes: Seq<u8>) -> Seq<char> {
    hex_of(sha256_of(bytes))
}

/// The checksum of some bytes.
pub fn checksum_bytes(bytes: &[u8]) -> (r: String)
    ensures
        r@ == checksum_of(bytes@),
        r@.len() == 64,
{
    hex(sha256(bytes).as_slice())
}

/// A failure of recovery material.
pub open spec fn recovery_fault(reason: Seq<char>) -> ErrorView {
    ErrorView::CorruptStore { store: "Record recovery"@, reason }
}

/// A failure of recovery material.
pub(crate) fn recovery_corrupt(reason: String) -> (r: CoreError)
    ensures
        r@ == recovery_fault(reason@),
{
    CoreError::CorruptStore { store: "Record recovery", reason }
}

/// A copy of the Record Store at a revision.
#[derive(Debug, PartialEq, Eq)]
pub struct BaselineArtifact {
    pub filename: String,
    pub revision: u64,
    pub size_bytes: u64,
    pub checksum_sha256: String,
}

pub struct BaselineView {
    pub filename: Seq<char>,
    pub revision: u64,
    pub size_bytes: u64,
    pub checksum_sha256: Seq<char>,
}

impl View for BaselineArtifact {
    type V = BaselineView;

    open spec fn view(&self) -> BaselineView {
        BaselineView {
            filename: self.filename@,
            revision: self.revision,
            size_bytes: self.size_bytes,
            checksum_sha256: self.checksum_sha256@,
        }
    }
}

impl Clone for BaselineArtifact {
    fn clone(&self) -> (r: BaselineArtifact)
        ensures
            r@ == self@,
    {
        BaselineArtifact {
            filename: self.filename.clone(),
            revision: self.revision,
            size_bytes: self.size_bytes,
            checksum_sha256: self.checksum_sha256.clone(),
        }
    }
}

/// What changed from one revision to another.
#[derive(Debug, PartialEq, Eq)]
pub struct SegmentArtifact {
    pub filename: String,
    pub from_revision: u64,
    pub through_revision: u64,
    pub size_bytes: u64,
    pub checksum_sha256: String,
}

pub struct SegmentView {
    pub filename: Seq<char>,
    pub from_revision: u64,
    pub through_revision: u64,
    pub size_bytes: u64,
    pub checksum_sha256: Seq<char>,
}

impl View for SegmentArtifact {
    type V = SegmentView;

    open spec fn view(&self) -> SegmentView {
        SegmentView {
            filename: self.filename@,
            from_revision: self.from_revision,
            through_revision: self.through_revision,
            size_bytes: self.size_bytes,
            checksum_sha256: self.checksum_sha256@,
        }
    }
}

impl Clone for SegmentArtifact {
    fn clone(&self) -> (r: SegmentArtifact)
        ensures
            r@ == self@,
    {
        SegmentArtifact {
            filename: self.filename.clone(),
            from_revision: self.from_revision,
            through_revision: self.through_revision,
            size_bytes: self.size_bytes,
            checksum_sha256: self.checksum_sha256.clone(),
        }
    }
}

/// The list of the recovery material.
#[derive(Debug, PartialEq, Eq)]
pub struct RecoveryManifest {
    pub format_version: u32,
    pub record_schema_version: u32,
    pub generation: u64,
    pub recovery_revision: u64,
    pub purge_barrier_revision: Option<u64>,
    pub baselines: Vec<BaselineArtifact>,
    pub segments: Vec<SegmentArtifact>,
    pub last_recovery_note: Option<String>,
}

#[verifier::ext_equal]
pub struct ManifestView {
    pub format_version: u32,
    pub record_schema_version: u32,
    pub generation: u64,
    pub recovery_revision: u64,
    pub purge_barrier_revision: Option<u64>,
    pub baselines: Seq<BaselineView>,
    pub segments: Seq<SegmentView>,
    pub last_recovery_note: Option<Seq<char>>,
}

/// The views of some baselines.
pub open spec fn baselines_view(baselines: Seq<BaselineArtifact>) -> Seq<BaselineView> {
    Seq::new(baselines.len(), |i: int| baselines[i]@)
}

/// The views of some segments.
pub open spec fn segments_view(segments: Seq<SegmentArtifact>) -> Seq<SegmentView> {
    Seq::new(segments.len(), |i: int| segments[i]@)
}

impl View for RecoveryManifest {
    type V = ManifestView;

    open spec fn view(&self) -> ManifestView {
        ManifestView {
            format_version: self.format_version,
            record_schema_version: self.record_schema_version,
            generation: self.generation,
            recovery_revision: self.recovery_revision,
            purge_barrier_revision: self.purge_barrier_revision,
            baselines: baselines_view(self.baselines@),
            segments: segments_view(self.segments@),
            last_recovery_note: optional_text(self.last_recovery_note),
        }
    }
}

/// A segment that was read: its patch, and what it says of itself.
pub struct RecoverySegment {
    pub format_version: u32,
    pub from_revision: u64,
    pub through_revision: u64,
    pub patch: PatchFrame,
}

/// Whether a piece of a path counts as a component: not an empty one, and `.` only at the very
/// beginning.
pub open spec fn is_component(piece: Seq<char>, first: bool) -> bool {
    piece.len() > 0 && (piece != seq!['.'] || first)
}

/// The complete components of a path whose parts stand between slashes, the piece that its end
/// leaves open, and whether that piece is the first.
pub open spec fn path_so_far(path: Seq<char>) -> (nat, Seq<char>, bool)
    decreases path.len(),
{
    if path.len() == 0 {
        (0, Seq::empty(), true)
    } else {
        let (count, open, first) = path_so_far(path.drop_last());
        if path.last() == '/' {
            if path.len() == 1 || is_component(open, first) {
                (count + 1, Seq::empty(), false)
            } else {
                (count, Seq::empty(), false)
            }
        } else {
            (count, open.push(path.last()), first)
        }
    }
}

/// How many components a path has: the root, if it begins there, and every part but empty ones
/// and, after the first, `.`.
pub open spec fn component_count(path: Seq<char>) -> nat {
    let (count, open, first) = path_so_far(path);
    if is_component(open, first) {
        count + 1
    } else {
        count
    }
}

/// Why a filename of recovery material is refused.
pub open spec fn filename_fault(filename: Seq<char>) -> Option<ErrorView> {
    if component_count(filename) != 1 || filename.len() == 0 {
        Some(recovery_fault("recovery artifact filename is not local"@))
    } else {
        None
    }
}

fn is_component_text(piece: &Vec<char>, first: bool) -> (r: bool)
    ensures
        r == is_component(piece@, first),
{
    let dot = piece.len() == 1 && piece[0] == '.';
    proof {
        if dot {
            assert(piece@ =~= seq!['.']);
        }
    }
    piece.len() > 0 && (!dot || first)
}

/// Refuses a filename that is not one within its directory.
pub fn validate_local_filename(filename: &str) -> (r: Result<(), CoreError>)
    ensures
        match r {
            Ok(_) => filename_fault(filename@) is None,
            Err(e) => filename_fault(filename@) == Some(e@),
        },
{
    let chars = chars_of(filename);
    let mut count: usize = 0;
    let mut open: Vec<char> = Vec::new();
    let mut first = true;
    let mut i: usize = 0;
    proof {
        assert(chars@.subrange(0, 0) =~= Seq::<char>::empty());
    }
    while i < chars.len()
        invariant
            chars@ == filename@,
            i <= chars@.len(),
            count <= i,
            path_so_far(chars@.subrange(0, i as int)) == (count as nat, open@, first),
        decreases chars@.len() - i,
    {
        let c = chars[i];
        proof {
            let s = chars@.subrange(0, i + 1);
            assert(s.drop_last() =~= chars@.subrange(0, i as int));
            assert(s.last() == c);
        }
        if c == '/' {
            if i == 0 || is_component_text(&open, first) {
                count = count + 1;
            }
            open = Vec::new();
            first = false;
        } else {
            open.push(c);
        }
        i = i + 1;
    }
    proof {
        assert(chars@.subrange(0, i as int) =~= filename@);
    }
    let last = is_component_text(&open, first);
    let one = if last {
        count == 0
    } else {
        count == 1
    };
    if !one || filename.is_empty() {
        return Err(recovery_corrupt("recovery artifact filename is not local".to_owned()));
    }
    Ok(())
}

/// Why recovery material is refused whose bytes these are.
pub open spec fn artifact_fault(
    name: Seq<char>,
    length: nat,
    actual: Seq<char>,
    size: u64,
    checksum: Seq<char>,
) -> Option<ErrorView> {
    if length != size || actual != checksum {
        Some(recovery_fault("artifact "@ + name + " failed checksum validation"@))
    } else {
        None
    }
}

/// Refuses recovery material whose size or checksum is not the one that the manifest names.
pub fn verify_artifact(name: &str, bytes: &[u8], size: u64, checksum: &str) -> (r: Result<
    (),
    CoreError,
>)
    ensures
        match r {
            Ok(_) => artifact_fault(
                name@,
                bytes@.len(),
                checksum_of(bytes@),
                size,
                checksum@,
            ) is None,
            Err(e) => artifact_fault(
                name@,
                bytes@.len(),
                checksum_of(bytes@),
                size,
                checksum@,
            ) == Some(e@),
        },
{
    let actual = checksum_bytes(bytes);
    check_artifact(name, bytes.len(), actual.as_str(), size, checksum)
}

/// Refuses recovery material whose actual length or checksum is not the one that the manifest names.
pub fn check_artifact(name: &str, length: usize, actual: &str, size: u64, checksum: &str) -> (r:
    Result<(), CoreError>)
    ensures
        match r {
            Ok(_) => artifact_fault(name@, length as nat, actual@, size, checksum@) is None,
            Err(e) => artifact_fault(name@, length as nat, actual@, size, checksum@) == Some(e@),
        },
{
    if length as u64 != size || !same_text(actual, checksum) {
        return Err(recovery_corrupt(join3("artifact ", name, " failed checksum validation")));
    }
    Ok(())
}

/// The name of the file of a segment.
pub open spec fn segment_name(from_revision: u64, target_revision: u64) -> Seq<char> {
    "segment-"@ + padded_decimal_of((from_revision + 1) as nat, 20) + "-"@ + padded_decimal_of(
        target_revision as nat,
        20,
    ) + ".json"@
}

/// The name of the file of a segment.
pub fn segment_filename(from_revision: u64, target_revision: u64) -> (r: String)
    requires
        from_revision < u64::MAX,
    ensures
        r@ == segment_name(from_revision, target_revision),
{
    let from = padded_decimal(from_revision + 1, 20);
    let target = padded_decimal(target_revision, 20);
    crate::text::join5("segment-", from.as_str(), "-", target.as_str(), ".json")
}

/// Why a manifest is refused: its checksum is not that of its bytes, it is of another version, it
/// names too much, or it names a file that is not local.
pub open spec fn manifest_fault(m: ManifestView, actual: Seq<char>, checksum: Seq<char>) -> Option<
    ErrorView,
> {
    if actual != checksum {
        Some(recovery_fault("recovery manifest checksum mismatch"@))
    } else if m.format_version != RECOVERY_FORMAT_VERSION || m.record_schema_version
        != RECORD_SCHEMA_VERSION || m.baselines.len() > 2 || m.segments.len()
        > MAX_RECOVERY_SEGMENTS {
        Some(recovery_fault("recovery manifest version or artifact bounds are invalid"@))
    } else if exists|i: int|
        0 <= i < m.baselines.len() && filename_fault((#[trigger] m.baselines[i]).filename) is Some {
        Some(recovery_fault("recovery artifact filename is not local"@))
    } else if exists|i: int|
        0 <= i < m.segments.len() && filename_fault((#[trigger] m.segments[i]).filename) is Some {
        Some(recovery_fault("recovery artifact filename is not local"@))
    } else {
        None
    }
}

impl RecoveryManifest {
    /// Refuses this manifest unless the checksum is that of its bytes and it is one of recovery
    /// material that can be read here.
    pub fn check(&self, bytes: &[u8], checksum: &str) -> (r: Result<(), CoreError>)
        ensures
            match r {
                Ok(_) => manifest_fault(self@, checksum_of(bytes@), checksum@) is None,
                Err(e) => manifest_fault(self@, checksum_of(bytes@), checksum@) == Some(e@),
            },
    {
        let actual = checksum_bytes(bytes);
        self.check_against(actual.as_str(), checksum)
    }

    /// Refuses this manifest unless the checksum is the actual one and it is one of recovery
    /// material that can be read here.
    pub fn check_against(&self, actual: &str, checksum: &str) -> (r: Result<(), CoreError>)
        ensures
            match r {
                Ok(_) => manifest_fault(self@, actual@, checksum@) is None,
                Err(e) => manifest_fault(self@, actual@, checksum@) == Some(e@),
            },
    {
        if !same_text(actual, checksum) {
            return Err(recovery_corrupt("recovery manifest checksum mismatch".to_owned()));
        }
        if self.format_version != RECOVERY_FORMAT_VERSION || self.record_schema_version
            != RECORD_SCHEMA_VERSION || self.baselines.len() > 2 || self.segments.len()
            > MAX_RECOVERY_SEGMENTS {
            return Err(
                recovery_corrupt(
                    "recovery manifest version or artifact bounds are invalid".to_owned(),
                ),
            );
        }
        let ghost m = self@;
        let mut i: usize = 0;
        while i < self.baselines.len()
            invariant
                m == self@,
                i <= self.baselines@.len(),
                actual@ == checksum@,
                !(m.format_version != RECOVERY_FORMAT_VERSION || m.record_schema_version
                    != RECORD_SCHEMA_VERSION || m.baselines.len() > 2 || m.segments.len()
                    > MAX_RECOVERY_SEGMENTS),
                forall|j: int|
                    0 <= j < i ==> filename_fault((#[trigger] m.baselines[j]).filename) is None,
            decreases self.baselines@.len() - i,
        {
            proof {
                assert(m.baselines[i as int].filename == self.baselines@[i as int].filename@);
            }
            match validate_local_filename(self.baselines[i].filename.as_str()) {
                Err(e) => return Err(e),
                Ok(_) => {},
            }
            i = i + 1;
        }
        let mut k: usize = 0;
        while k < self.segments.len()
            invariant
                m == self@,
                k <= self.segments@.len(),
                actual@ == checksum@,
                !(m.format_version != RECOVERY_FORMAT_VERSION || m.record_schema_version
                    != RECORD_SCHEMA_VERSION || m.baselines.len() > 2 || m.segments.len()
                    > MAX_RECOVERY_SEGMENTS),
                forall|j: int|
                    0 <= j < m.baselines.len() ==> filename_fault(
                        (#[trigger] m.baselines[j]).filename,
                    ) is None,
                forall|j: int|
                    0 <= j < k ==> filename_fault((#[trigger] m.segments[j]).filename) is None,
            decreases self.segments@.len() - k,
        {
            proof {
                assert(m.segments[k as int].filename == self.segments@[k as int].filename@);
            }
            match validate_local_filename(self.segments[k].filename.as_str()) {
                Err(e) => return Err(e),
                Ok(_) => {},
            }
            k = k + 1;
        }
        Ok(())
    }

    /// The same manifest.
    pub fn copy(&self) -> (r: RecoveryManifest)
        ensures
            r@ == self@,
    {
        let mut baselines: Vec<BaselineArtifact> = Vec::new();
        let mut i: usize = 0;
        while i < self.baselines.len()
            invariant
                i <= self.baselines@.len(),
                baselines@.len() == i,
                forall|j: int| 0 <= j < i ==> (#[trigger] baselines@[j])@ == self.baselines@[j]@,
            decreases self.baselines@.len() - i,
        {
            baselines.push(self.baselines[i].clone());
            i = i + 1;
        }
        let mut segments: Vec<SegmentArtifact> = Vec::new();
        let mut k: usize = 0;
        while k < self.segments.len()
            invariant
                k <= self.segments@.len(),
                segments@.len() == k,
                forall|j: int| 0 <= j < k ==> (#[trigger] segments@[j])@ == self.segments@[j]@,
            decreases self.segments@.len() - k,
        {
            segments.push(self.segments[k].clone());
            k = k + 1;
        }
        proof {
            assert(baselines_view(baselines@) =~= baselines_view(self.baselines@));
            assert(segments_view(segments@) =~= segments_view(self.segments@));
        }
        RecoveryManifest {
            format_version: self.format_version,
            record_schema_version: self.record_schema_version,
            generation: self.generation,
            recovery_revision: self.recovery_revision,
            purge_barrier_revision: self.purge_barrier_revision,
            baselines,
            segments,
            last_recovery_note: clone_optional_text(&self.last_recovery_note),
        }
    }
}

impl RecoverySegment {
    /// Refuses a segment of another version.
    pub fn check_version(&self) -> (r: Result<(), CoreError>)
        ensures
            match r {
                Ok(_) => self.format_version == RECOVERY_FORMAT_VERSION,
                Err(e) => self.format_version != RECOVERY_FORMAT_VERSION && e@ == recovery_fault(
                    "unsupported recovery segment version"@,
                ),
            },
    {
        if self.format_version != RECOVERY_FORMAT_VERSION {
            return Err(recovery_corrupt("unsupported recovery segment version".to_owned()));
        }
        Ok(())
    }
}

} // verus!
