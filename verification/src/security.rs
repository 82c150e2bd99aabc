//! Storage-boundary evidence for protected Genesis libraries.
//!
//! Protected storage is an explicit boundary above Core. Core does not own
//! encryption or keys; it only refuses to write when the selected protected
//! root can no longer be proven to be the same root that was configured.
use vstd::prelude::*;
use crate::error::{CoreError, ErrorView};
use crate::id::NodeId;
use crate::text::{decimal, decimal_of, join2, join5, same_text};

verus! {

/// The version of the boundary manifest.
pub const BOUNDARY_FORMAT_VERSION: u32 = 1;

/// Whether writes need evidence of the configured root, and which.
#[derive(Debug, PartialEq, Eq)]
pub enum StorageBoundary {
    Unprotected,
    Protected { library_root: String, root_fingerprint: String, sentinel: String },
}

/// The evidence that was recorded when a root was configured.
#[derive(Debug, PartialEq, Eq)]
pub struct BoundaryManifest {
    pub format_version: u32,
    pub mode: String,
    pub root_fingerprint: String,
    pub sentinel: String,
}

/// What came of reading a boundary manifest.
#[derive(Debug)]
pub enum ManifestRead {
    /// The file could not be read, with what the system said.
    Unavailable(String),
    /// The file holds no manifest, with what the parser said.
    Invalid(String),
    Read(BoundaryManifest),
}

/// What is found at the root now: whether it is a directory, its fingerprint, and its sentinel, or
/// what the system said instead.
#[derive(Debug)]
pub struct BoundaryEvidence {
    pub root_is_dir: bool,
    pub fingerprint: Result<String, CoreError>,
    pub sentinel: Result<String, String>,
}

/// A protected store that cannot be reached.
pub open spec fn unreachable_store(reason: Seq<char>) -> ErrorView {
    ErrorView::ProtectedStoreUnavailable(reason)
}

fn unavailable(reason: &str) -> (r: CoreError)
    ensures
        r@ == unreachable_store(reason@),
{
    CoreError::ProtectedStoreUnavailable(reason.to_owned())
}

/// Why a protected root is refused when it is opened.
pub open spec fn required_fault(root_is_dir: bool, read: ManifestRead) -> Option<ErrorView> {
    if !root_is_dir {
        Some(unreachable_store("the selected protected Store root is missing"@))
    } else {
        match read {
            ManifestRead::Unavailable(words) => Some(
                unreachable_store(
                    "protected Store boundary manifest is unavailable: "@ + words@,
                ),
            ),
            ManifestRead::Invalid(words) => Some(
                unreachable_store("protected Store boundary manifest is invalid: "@ + words@),
            ),
            ManifestRead::Read(m) => if m.format_version != BOUNDARY_FORMAT_VERSION || m.mode@
                != "protected"@ {
                Some(
                    unreachable_store(
                        "protected Store boundary manifest version or mode is invalid"@,
                    ),
                )
            } else if m.root_fingerprint@.len() == 0 || m.sentinel@.len() == 0 {
                Some(unreachable_store("protected Store boundary evidence is incomplete"@))
            } else {
                None
            },
        }
    }
}

/// Whether a boundary is the one of a root that a manifest records.
pub open spec fn guards(boundary: StorageBoundary, root: Seq<char>, m: BoundaryManifest) -> bool {
    match boundary {
        StorageBoundary::Unprotected => false,
        StorageBoundary::Protected { library_root, root_fingerprint, sentinel } => library_root@
            == root && root_fingerprint@ == m.root_fingerprint@ && sentinel@ == m.sentinel@,
    }
}

/// Whether a manifest marks the root of a fingerprint as protected, with a sentinel that is an ID's
/// text.
pub open spec fn marks(m: BoundaryManifest, fingerprint: Seq<char>) -> bool {
    m.format_version == BOUNDARY_FORMAT_VERSION && m.mode@ == "protected"@ && m.root_fingerprint@
        == fingerprint && exists|id: NodeId| #[trigger] id.valid() && m.sentinel@ == id.text()
}

/// Why evidence does not show the configured root.
pub open spec fn evidence_fault(
    fingerprint: Seq<char>,
    sentinel: Seq<char>,
    evidence: BoundaryEvidence,
) -> Option<ErrorView> {
    if !evidence.root_is_dir {
        Some(unreachable_store("the protected Store root disappeared or is unmounted"@))
    } else {
        match evidence.fingerprint {
            Err(e) => Some(e@),
            Ok(found) => if found@ != fingerprint {
                Some(
                    unreachable_store(
                        "the protected Store root does not match its configured storage identity"@,
                    ),
                )
            } else {
                match evidence.sentinel {
                    Err(words) => Some(
                        unreachable_store(
                            "the protected Store sentinel is unavailable: "@ + words@,
                        ),
                    ),
                    Ok(actual) => if actual@ != sentinel {
                        Some(
                            unreachable_store(
                                "the protected Store sentinel does not match"@,
                            ),
                        )
                    } else {
                        None
                    },
                }
            },
        }
    }
}

/// Why writes are refused now.
pub open spec fn boundary_fault(boundary: StorageBoundary, evidence: BoundaryEvidence) -> Option<
    ErrorView,
> {
    match boundary {
        StorageBoundary::Unprotected => None,
        StorageBoundary::Protected { library_root: _, root_fingerprint, sentinel } =>
            evidence_fault(root_fingerprint@, sentinel@, evidence),
    }
}

/// The fingerprint of a root on a system with devices and inodes.
pub open spec fn unix_fingerprint_of(path: Seq<char>, device: u64, inode: u64) -> Seq<char> {
    "unix:"@ + path + ":"@ + decimal_of(device as nat) + ":"@ + decimal_of(inode as nat)
}

/// The fingerprint of a root on a system with devices and inodes.
pub fn unix_fingerprint(canonical_path: &str, device: u64, inode: u64) -> (r: String)
    ensures
        r@ == unix_fingerprint_of(canonical_path@, device, inode),
{
    let device_text = decimal(device as u128);
    let inode_text = decimal(inode as u128);
    let mut r = join5("unix:", canonical_path, ":", device_text.as_str(), ":");
    r.append(inode_text.as_str());
    r
}

impl StorageBoundary {
    /// The boundary of a root that must be protected.
    pub fn load_required(library_root: &str, root_is_dir: bool, read: ManifestRead) -> (r: Result<
        StorageBoundary,
        CoreError,
    >)
        ensures
            match r {
                Ok(boundary) => required_fault(root_is_dir, read) is None && read is Read && guards(
                    boundary,
                    library_root@,
                    read->Read_0,
                ),
                Err(e) => required_fault(root_is_dir, read) == Some(e@),
            },
    {
        if !root_is_dir {
            return Err(unavailable("the selected protected Store root is missing"));
        }
        match read {
            ManifestRead::Unavailable(words) => {
                let reason = join2(
                    "protected Store boundary manifest is unavailable: ",
                    words.as_str(),
                );
                Err(CoreError::ProtectedStoreUnavailable(reason))
            },
            ManifestRead::Invalid(words) => {
                let reason = join2(
                    "protected Store boundary manifest is invalid: ",
                    words.as_str(),
                );
                Err(CoreError::ProtectedStoreUnavailable(reason))
            },
            ManifestRead::Read(manifest) => {
                if manifest.format_version != BOUNDARY_FORMAT_VERSION || !same_text(
                    manifest.mode.as_str(),
                    "protected",
                ) {
                    return Err(
                        unavailable("protected Store boundary manifest version or mode is invalid"),
                    );
                }
                if manifest.root_fingerprint.as_str().is_empty()
                    || manifest.sentinel.as_str().is_empty() {
                    return Err(unavailable("protected Store boundary evidence is incomplete"));
                }
                Ok(
                    StorageBoundary::Protected {
                        library_root: library_root.to_owned(),
                        root_fingerprint: manifest.root_fingerprint,
                        sentinel: manifest.sentinel,
                    },
                )
            },
        }
    }

    /// The boundary of a root that is protected exactly where it has a manifest.
    pub fn load_if_present(
        library_root: &str,
        manifest_exists: bool,
        root_is_dir: bool,
        read: ManifestRead,
    ) -> (r: Result<StorageBoundary, CoreError>)
        ensures
            match r {
                Ok(boundary) => if manifest_exists {
                    required_fault(root_is_dir, read) is None && read is Read && guards(
                        boundary,
                        library_root@,
                        read->Read_0,
                    )
                } else {
                    boundary == StorageBoundary::Unprotected
                },
                Err(e) => manifest_exists && required_fault(root_is_dir, read) == Some(e@),
            },
    {
        if !manifest_exists {
            return Ok(StorageBoundary::Unprotected);
        }
        StorageBoundary::load_required(library_root, root_is_dir, read)
    }

    /// The manifest that marks an already selected root as protected, with a new sentinel.
    pub fn configure_protected(root_is_dir: bool, root_fingerprint: String) -> (r: Result<
        BoundaryManifest,
        CoreError,
    >)
        ensures
            match r {
                Ok(m) => root_is_dir && marks(m, root_fingerprint@),
                Err(e) => !root_is_dir && e@ == unreachable_store(
                    "a protected Store must be configured on an existing root"@,
                ),
            },
    {
        if !root_is_dir {
            return Err(unavailable("a protected Store must be configured on an existing root"));
        }
        let id = NodeId::new();
        let sentinel = id.to_string();
        assert(id.valid() && sentinel@ == id.text());
        Ok(
            BoundaryManifest {
                format_version: BOUNDARY_FORMAT_VERSION,
                mode: "protected".to_owned(),
                root_fingerprint,
                sentinel,
            },
        )
    }

    /// Refuses evidence that does not show the configured root.
    pub fn validate(&self, evidence: &BoundaryEvidence) -> (r: Result<(), CoreError>)
        ensures
            match r {
                Ok(_) => boundary_fault(*self, *evidence) is None,
                Err(e) => boundary_fault(*self, *evidence) == Some(e@),
            },
    {
        match self {
            StorageBoundary::Unprotected => Ok(()),
            StorageBoundary::Protected { library_root: _, root_fingerprint, sentinel } => {
                if !evidence.root_is_dir {
                    return Err(
                        unavailable("the protected Store root disappeared or is unmounted"),
                    );
                }
                match &evidence.fingerprint {
                    Err(e) => return Err(e.clone()),
                    Ok(found) => if !same_text(found.as_str(), root_fingerprint.as_str()) {
                        return Err(
                            unavailable(
                                "the protected Store root does not match its configured storage identity",
                            ),
                        );
                    },
                }
                match &evidence.sentinel {
                    Err(words) => {
                        let reason = join2(
                            "the protected Store sentinel is unavailable: ",
                            words.as_str(),
                        );
                        Err(CoreError::ProtectedStoreUnavailable(reason))
                    },
                    Ok(actual) => if !same_text(actual.as_str(), sentinel.as_str()) {
                        Err(unavailable("the protected Store sentinel does not match"))
                    } else {
                        Ok(())
                    },
                }
            },
        }
    }

    /// Refuses a protected root without a metadata directory, which elsewhere is made where there is
    /// none.
    pub fn check_metadata_root(&self, is_dir: bool) -> (r: Result<(), CoreError>)
        ensures
            match r {
                Ok(_) => *self is Unprotected || is_dir,
                Err(e) => *self is Protected && !is_dir && e@ == unreachable_store(
                    "protected Store metadata root is unavailable"@,
                ),
            },
    {
        if self.is_protected() && !is_dir {
            return Err(unavailable("protected Store metadata root is unavailable"));
        }
        Ok(())
    }

    /// Whether the root is protected.
    pub fn is_protected(&self) -> (r: bool)
        ensures
            r == (*self is Protected),
    {
        match self {
            StorageBoundary::Unprotected => false,
            StorageBoundary::Protected { .. } => true,
        }
    }
}

/// The manifest that configuring a root gives is one that opening the root accepts, and the root,
/// with that fingerprint and the sentinel of the manifest, takes writes.
pub proof fn law_configured_root_is_accepted(
    root: Seq<char>,
    path: Seq<char>,
    device: u64,
    inode: u64,
    m: BoundaryManifest,
    boundary: StorageBoundary,
    evidence: BoundaryEvidence,
)
    requires
        marks(m, unix_fingerprint_of(path, device, inode)),
        guards(boundary, root, m),
        evidence.root_is_dir,
        evidence.fingerprint is Ok,
        evidence.fingerprint->Ok_0@ == unix_fingerprint_of(path, device, inode),
        evidence.sentinel is Ok,
        evidence.sentinel->Ok_0@ == m.sentinel@,
    ensures
        required_fault(true, ManifestRead::Read(m)) is None,
        boundary is Protected,
        boundary_fault(boundary, evidence) is None,
{
    reveal_strlit("unix:");
    reveal_strlit(":");
    assert(unix_fingerprint_of(path, device, inode).len() >= 5);
    let id = choose|id: NodeId| #[trigger] id.valid() && m.sentinel@ == id.text();
    NodeId::lemma_text_length(id);
}

/// A root that was configured, and shows what its manifest records, is accepted; any root whose
/// fingerprint or sentinel is another is refused.
pub proof fn law_boundary_fails_closed(
    boundary: StorageBoundary,
    root: Seq<char>,
    m: BoundaryManifest,
    evidence: BoundaryEvidence,
)
    requires
        guards(boundary, root, m),
    ensures
        boundary_fault(boundary, evidence) is None <==> evidence.root_is_dir && evidence.fingerprint
            is Ok && evidence.fingerprint->Ok_0@ == m.root_fingerprint@ && evidence.sentinel is Ok
            && evidence.sentinel->Ok_0@ == m.sentinel@,
{
}

/// A root that must be protected is opened exactly where it is a directory and its manifest can be
/// read, is of the first version and of the protected mode, and names a fingerprint and a sentinel;
/// else it is unavailable. Its boundary then guards that root with what the manifest names.
pub proof fn law_protected_roots_are_checked(
    root_is_dir: bool,
    read: ManifestRead,
    boundary: StorageBoundary,
    root: Seq<char>,
)
    ensures
        required_fault(root_is_dir, read) is None <==> root_is_dir && match read {
            ManifestRead::Read(m) => m.format_version == 1 && m.mode@ == "protected"@
                && m.root_fingerprint@.len() > 0 && m.sentinel@.len() > 0,
            _ => false,
        },
        required_fault(root_is_dir, read) is Some ==> required_fault(root_is_dir, read)->0
            is ProtectedStoreUnavailable,
        read is Read && guards(boundary, root, read->Read_0) ==> match boundary {
            StorageBoundary::Protected { library_root, root_fingerprint, sentinel } => library_root@
                == root && root_fingerprint@ == read->Read_0.root_fingerprint@ && sentinel@
                == read->Read_0.sentinel@,
            StorageBoundary::Unprotected => false,
        },
{
}

} // verus!
