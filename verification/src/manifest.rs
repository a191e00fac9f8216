use vstd::prelude::*;

use crate::error::XfmtError;
use crate::hex::{hex_encode, hex_string, push_char};
use crate::models::{
    BundleEntry, ChunkingPolicy, CompatibilityFlags, IntegrityPolicy, Manifest, MediaInfo,
    ParityConfig, SecurityPolicy,
};

verus! {

/// The file type a path's extension suggests (`mime_guess`), `application/octet-stream`
/// where it suggests none.
pub uninterp spec fn mime_type_for(path: Seq<char>) -> Seq<char>;

/// Calls `mime_guess::from_path(path).first_or_octet_stream()` and renders the type.
#[verifier::external_body]
fn guess_mime_type(path: &str) -> (m: String)
    ensures
        m@ == mime_type_for(path@),
{
    mime_guess::from_path(path).first_or_octet_stream().to_string()
}

/// Chunk sizes, in bytes, for content-defined chunking: small chunks in fast mode
/// (256 KiB, 1 MiB, 4 MiB), large ones otherwise (1 MiB, 16 MiB, 64 MiB).
pub fn chunking_policy(fast_mode: bool) -> (p: ChunkingPolicy)
    ensures
        p.mode@ == "content_defined"@,
        fast_mode ==> p.min_size == 262144 && p.avg_size == 1048576 && p.max_size == 4194304,
        !fast_mode ==> p.min_size == 1048576 && p.avg_size == 16777216 && p.max_size == 67108864,
{
    let (min_size, avg_size, max_size) = if fast_mode {
        (262144u32, 1048576u32, 4194304u32)
    } else {
        (1048576u32, 16777216u32, 67108864u32)
    };
    ChunkingPolicy { mode: String::from_str("content_defined"), min_size, avg_size, max_size }
}

/// What a new manifest records of the archive, before it is signed.
pub open spec fn new_manifest(
    m: Manifest,
    object_id: Seq<char>,
    original_name: Seq<char>,
    original_type: Seq<char>,
    original_size: u64,
    transform_profile: Seq<char>,
    fast_mode: bool,
    salt: Option<Seq<u8>>,
    signed: bool,
    repository_path: Option<Seq<char>>,
    parity: Option<ParityConfig>,
    media_info: Option<MediaInfo>,
) -> bool {
    &&& m.format@ == "XFMT"@
    &&& m.version@ == "0.1"@
    &&& m.object_id@ == object_id
    &&& m.original_name@ == original_name
    &&& m.original_type@ == original_type
    &&& m.original_size == original_size
    &&& m.transform_profile@ == transform_profile
    &&& m.chunking.mode@ == "content_defined"@
    &&& (fast_mode ==> m.chunking.min_size == 262144 && m.chunking.avg_size == 1048576
        && m.chunking.max_size == 4194304)
    &&& (!fast_mode ==> m.chunking.min_size == 1048576 && m.chunking.avg_size == 16777216
        && m.chunking.max_size == 67108864)
    &&& m.integrity.hash@ == "sha256"@
    &&& m.integrity.tree@ == "none"@
    &&& m.security.encrypted == salt is Some
    &&& m.security.signed == signed
    &&& (match (m.security.salt, salt) {
        (Some(t), Some(s)) => t@ == hex_encode(s),
        (None, None) => true,
        _ => false,
    })
    &&& !m.compatibility.fallback_payload
    &&& !m.compatibility.legacy_preview
    &&& m.parity == parity
    &&& (match (m.repository_path, repository_path) {
        (Some(a), Some(b)) => a@ == b,
        (None, None) => true,
        _ => false,
    })
    &&& m.signature is None
    &&& m.public_key is None
    &&& m.media_info == media_info
}

fn manifest_with(
    object_id: String,
    original_name: String,
    original_type: String,
    original_size: u64,
    transform_profile: String,
    fast_mode: bool,
    salt: Option<[u8; 16]>,
    signed: bool,
    repository_path: Option<String>,
    parity: Option<ParityConfig>,
    media_info: Option<MediaInfo>,
    bundle_files: Option<Vec<BundleEntry>>,
) -> (m: Manifest)
    ensures
        new_manifest(
            m,
            object_id@,
            original_name@,
            original_type@,
            original_size,
            transform_profile@,
            fast_mode,
            match salt {
                Some(s) => Some(s@),
                None => None,
            },
            signed,
            match repository_path {
                Some(r) => Some(r@),
                None => None,
            },
            parity,
            media_info,
        ),
        m.bundle_files == bundle_files,
{
    let salt_text = match salt {
        Some(s) => Some(hex_string(&s)),
        None => None,
    };
    Manifest {
        format: String::from_str("XFMT"),
        version: String::from_str("0.1"),
        object_id,
        original_name,
        original_type,
        original_size,
        transform_profile,
        chunking: chunking_policy(fast_mode),
        integrity: IntegrityPolicy { hash: String::from_str("sha256"), tree: String::from_str("none") },
        security: SecurityPolicy { encrypted: salt.is_some(), signed, salt: salt_text },
        compatibility: CompatibilityFlags { fallback_payload: false, legacy_preview: false },
        parity,
        repository_path,
        signature: None,
        public_key: None,
        media_info,
        bundle_files,
    }
}

/// The manifest of a packed file: its type guessed from `input_path`, the profile
/// `generic.reversible.v1`, the salt in hex where the archive is encrypted, and the
/// parity layout and media details as given.
pub fn file_manifest(
    input_path: &str,
    object_id: String,
    original_name: String,
    original_size: u64,
    fast_mode: bool,
    salt: Option<[u8; 16]>,
    signed: bool,
    repository_path: Option<String>,
    parity: Option<ParityConfig>,
    media_info: Option<MediaInfo>,
) -> (m: Manifest)
    ensures
        new_manifest(
            m,
            object_id@,
            original_name@,
            mime_type_for(input_path@),
            original_size,
            "generic.reversible.v1"@,
            fast_mode,
            match salt {
                Some(s) => Some(s@),
                None => None,
            },
            signed,
            match repository_path {
                Some(r) => Some(r@),
                None => None,
            },
            parity,
            media_info,
        ),
        m.bundle_files is None,
{
    let original_type = guess_mime_type(input_path);
    manifest_with(
        object_id,
        original_name,
        original_type,
        original_size,
        String::from_str("generic.reversible.v1"),
        fast_mode,
        salt,
        signed,
        repository_path,
        parity,
        media_info,
        None,
    )
}

/// The manifest of a bundled folder: type `application/x-directory`, profile
/// `bundle.v1`, the size the files add up to and their layout, the parity layout as
/// given and no media details.
pub fn bundle_manifest(
    object_id: String,
    original_name: String,
    layout: BundleLayout,
    fast_mode: bool,
    salt: Option<[u8; 16]>,
    signed: bool,
    repository_path: Option<String>,
    parity: Option<ParityConfig>,
) -> (m: Manifest)
    ensures
        new_manifest(
            m,
            object_id@,
            original_name@,
            "application/x-directory"@,
            layout.total_size(),
            "bundle.v1"@,
            fast_mode,
            match salt {
                Some(s) => Some(s@),
                None => None,
            },
            signed,
            match repository_path {
                Some(r) => Some(r@),
                None => None,
            },
            parity,
            None,
        ),
        m.bundle_files matches Some(f) && f@ == layout.files(),
{
    let total = layout.total;
    manifest_with(
        object_id,
        original_name,
        String::from_str("application/x-directory"),
        total,
        String::from_str("bundle.v1"),
        fast_mode,
        salt,
        signed,
        repository_path,
        parity,
        None,
        Some(layout.files),
    )
}

/// Records a signature and its public key, both in hex, in a manifest.
pub fn attach_signature(m: &mut Manifest, signature: String, public_key: String)
    ensures
        *final(m) == (Manifest { signature: Some(signature), public_key: Some(public_key), ..*old(m) }),
{
    m.signature = Some(signature);
    m.public_key = Some(public_key);
}

/// A relative path with every `\` made `/`.
pub open spec fn forward_slashes(p: Seq<char>) -> Seq<char> {
    Seq::new(p.len(), |i: int| if p[i] == '\\' { '/' } else { p[i] })
}

/// Making slashes forward keeps the path's length, puts `/` at every position that held
/// `\` and keeps every other character, so no `\` is left; and a path with no `\` is
/// kept as it is.
pub proof fn lemma_forward_slashes(p: Seq<char>)
    ensures
        forward_slashes(p).len() == p.len(),
        forall|i: int| 0 <= i < p.len() && p[i] == '\\' ==> #[trigger] forward_slashes(p)[i] == '/',
        forall|i: int| 0 <= i < p.len() && p[i] != '\\' ==> #[trigger] forward_slashes(p)[i] == p[i],
        !forward_slashes(p).contains('\\'),
        !p.contains('\\') ==> forward_slashes(p) == p,
{
    assert(!p.contains('\\') ==> forward_slashes(p) =~= p);
}

/// Files laid end to end, in the order they are bundled.
pub open spec fn laid_end_to_end(files: Seq<BundleEntry>, total: int) -> bool {
    &&& files.len() == 0 ==> total == 0
    &&& files.len() > 0 ==> files[0].offset == 0 && files.last().offset + files.last().size == total
    &&& forall|k: int|
        0 <= k < files.len() - 1 ==> #[trigger] files[k + 1].offset == files[k].offset
            + files[k].size
}

/// Where the files of a bundled folder lie in the bundled stream.
pub struct BundleLayout {
    files: Vec<BundleEntry>,
    total: u64,
}

impl BundleLayout {
    pub closed spec fn files(&self) -> Seq<BundleEntry> {
        self.files@
    }

    pub closed spec fn total_size(&self) -> u64 {
        self.total
    }

    /// Each file starts where the one before it ends, and the total is where the last ends.
    pub closed spec fn wf(&self) -> bool {
        laid_end_to_end(self.files@, self.total as int)
    }

    pub fn new() -> (l: BundleLayout)
        ensures
            l.wf(),
            l.files() == Seq::<BundleEntry>::empty(),
            l.total_size() == 0,
    {
        let l = BundleLayout { files: Vec::new(), total: 0 };
        assert(l.files@ =~= Seq::<BundleEntry>::empty());
        l
    }

    /// Adds a file of `size` bytes after those added before; its path is recorded with `/`
    /// separators. A total that would not fit in 64 bits is refused.
    pub fn add_file(&mut self, rel_path: &str, size: u64) -> (r: Result<(), XfmtError>)
        requires
            old(self).wf(),
        ensures
            final(self).wf(),
            r is Ok <==> old(self).total_size() + size <= u64::MAX,
            r is Err ==> *final(self) == *old(self) && r == Err::<(), XfmtError>(
                XfmtError::OffsetOverflow,
            ),
            r is Ok ==> {
                &&& final(self).files().len() == old(self).files().len() + 1
                &&& final(self).files().take(old(self).files().len() as int) == old(self).files()
                &&& final(self).files().last().rel_path@ == forward_slashes(rel_path@)
                &&& final(self).files().last().rel_path@.len() == rel_path@.len()
                &&& forall|i: int|
                    0 <= i < rel_path@.len() ==> (#[trigger] final(self).files().last().rel_path@[i]
                        == if rel_path@[i] == '\\' {
                        '/'
                    } else {
                        rel_path@[i]
                    })
                &&& !final(self).files().last().rel_path@.contains('\\')
                &&& final(self).files().last().size == size
                &&& final(self).files().last().offset == old(self).total_size()
                &&& final(self).total_size() == old(self).total_size() + size
            },
    {
        if size > u64::MAX - self.total {
            return Err(XfmtError::OffsetOverflow);
        }
        let n = rel_path.unicode_len();
        let mut p = String::new();
        for i in 0..n
            invariant
                n == rel_path@.len(),
                p@ == forward_slashes(rel_path@).take(i as int),
        {
            let c = rel_path.get_char(i);
            push_char(&mut p, if c == '\\' { '/' } else { c });
            assert(p@ =~= forward_slashes(rel_path@).take(i + 1));
        }
        assert(p@ =~= forward_slashes(rel_path@));
        proof {
            lemma_forward_slashes(rel_path@);
        }
        let ghost old_files = self.files@;
        self.files.push(BundleEntry { rel_path: p, size, offset: self.total });
        self.total = self.total + size;
        proof {
            assert(self.files@.take(old_files.len() as int) =~= old_files);
            let fs = self.files@;
            assert forall|k: int| 0 <= k < fs.len() - 1 implies #[trigger] fs[k + 1].offset == fs[k].offset + fs[k].size by {
                if k < old_files.len() - 1 {
                    assert(fs[k + 1] == old_files[k + 1]);
                    assert(fs[k] == old_files[k]);
                } else {
                    assert(fs[k] == old_files.last());
                }
            }
        }
        Ok(())
    }

    /// The files and the size they add up to.
    pub fn into_parts(self) -> (r: (Vec<BundleEntry>, u64))
        ensures
            r.0@ == self.files(),
            r.1 == self.total_size(),
    {
        (self.files, self.total)
    }
}

} // verus!
