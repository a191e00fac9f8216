use vstd::prelude::*;
use vstd::string::StringSliceAdditionalSpecFns;

use crate::error::XfmtError;
use crate::hex::{hex_encode, is_hex_char, push_char};
use crate::pack::digest_label;

verus! {

/// Where a repository keeps a chunk: `root/chunks/shard/file_name`.
#[derive(Debug, Clone)]
pub struct RepoChunkPath {
    pub root: String,
    pub shard: String,
    pub file_name: String,
}

/// A character that may stand in a chunk id: a hex digit, `_`, `-` or `:`.
pub open spec fn chunk_id_char(c: char) -> bool {
    is_hex_char(c) || c == '_' || c == '-' || c == ':'
}

/// A chunk id with every `:` replaced by `_`.
pub open spec fn safe_chunk_id(id: Seq<char>) -> Seq<char> {
    Seq::new(id.len(), |i: int| if id[i] == ':' { '_' } else { id[i] })
}

/// The part of a chunk id that names its file: a digest label `sha256:<hex>` is stored
/// under its hex digits alone; any other id as it stands.
pub open spec fn repo_id(chunk_id: Seq<char>) -> Seq<char> {
    if chunk_id.len() >= 7 && chunk_id.take(7) == "sha256:"@ {
        chunk_id.skip(7)
    } else {
        chunk_id
    }
}

/// Where a repository at `repo_path` keeps the chunk `chunk_id`. The id is first taken
/// by `repo_id` (a digest label loses its `sha256:`); that part, with `:` made `_`, names
/// the file, and its first two characters the shard directory. Parts with other
/// characters than hex digits, `:`, `_` and `-` are refused, then parts shorter than two.
pub fn get_repo_chunk_path(repo_path: &str, chunk_id: &str) -> (r: Result<RepoChunkPath, XfmtError>)
    ensures
        ({
            let id = repo_id(chunk_id@);
            &&& (exists|i: int| 0 <= i < id.len() && !chunk_id_char(#[trigger] id[i])) ==> r
                == Err::<RepoChunkPath, XfmtError>(XfmtError::InvalidChunkId)
            &&& (forall|i: int| 0 <= i < id.len() ==> chunk_id_char(#[trigger] id[i])) && id.len()
                < 2 ==> r == Err::<RepoChunkPath, XfmtError>(XfmtError::ChunkIdTooShort)
            &&& (forall|i: int| 0 <= i < id.len() ==> chunk_id_char(#[trigger] id[i])) && id.len()
                >= 2 ==> r is Ok
            &&& r matches Ok(p) ==> {
                &&& p.root@ == repo_path@
                &&& p.file_name@ == safe_chunk_id(id)
                &&& p.shard@ == safe_chunk_id(id).take(2)
            }
        }),
{
    let ghost id = repo_id(chunk_id@);
    if !chunk_id.is_ascii() {
        proof {
            let k = choose|k: int| 0 <= k < chunk_id@.len() && !('\0' <= #[trigger] chunk_id@[k] <= '\u{7f}');
            reveal_strlit("sha256:");
            if chunk_id@.len() >= 7 && chunk_id@.take(7) == "sha256:"@ {
                assert(k >= 7) by {
                    if k < 7 {
                        assert(chunk_id@.take(7)[k] == chunk_id@[k]);
                    }
                }
                assert(id[k - 7] == chunk_id@[k]);
                assert(!chunk_id_char(id[k - 7]));
            } else {
                assert(!chunk_id_char(id[k]));
            }
        }
        return Err(XfmtError::InvalidChunkId);
    }
    proof {
        vstd::string::is_ascii_spec_bytes(chunk_id);
        reveal_strlit("sha256:");
    }
    let b = chunk_id.as_bytes();
    let n = b.len();
    assert(n == chunk_id@.len());
    assert(forall|j: int| 0 <= j < n ==> #[trigger] b@[j] == chunk_id@[j] as u8);
    let labelled = n >= 7 && b[0] == 115 && b[1] == 104 && b[2] == 97 && b[3] == 50 && b[4] == 53
        && b[5] == 54 && b[6] == 58;
    let start: usize = if labelled { 7 } else { 0 };
    proof {
        if labelled {
            assert(chunk_id@.take(7) =~= "sha256:"@);
            assert(id =~= chunk_id@.skip(7));
        } else if chunk_id@.len() >= 7 && chunk_id@.take(7) == "sha256:"@ {
            assert(chunk_id@.take(7)[0] == 's');
            assert(chunk_id@.take(7)[1] == 'h');
            assert(chunk_id@.take(7)[2] == 'a');
            assert(chunk_id@.take(7)[3] == '2');
            assert(chunk_id@.take(7)[4] == '5');
            assert(chunk_id@.take(7)[5] == '6');
            assert(chunk_id@.take(7)[6] == ':');
            assert(false);
        } else {
            assert(id == chunk_id@);
        }
    }
    assert(id =~= chunk_id@.skip(start as int));
    let mut safe = String::new();
    let mut shard = String::new();
    for i in start..n
        invariant
            n == chunk_id@.len(),
            n == b@.len(),
            start <= n,
            id == chunk_id@.skip(start as int),
            id == repo_id(chunk_id@),
            forall|j: int| 0 <= j < n ==> #[trigger] b@[j] == chunk_id@[j] as u8,
            forall|j: int| 0 <= j < n ==> '\0' <= #[trigger] chunk_id@[j] <= '\u{7f}',
            forall|j: int| 0 <= j < i - start ==> chunk_id_char(#[trigger] id[j]),
            safe@ == safe_chunk_id(id).take(i - start),
            shard@ == safe_chunk_id(id).take(if i - start < 2 { i - start } else { 2 }),
    {
        let c = b[i];
        assert(c as char == chunk_id@[i as int]);
        assert(id[i - start] == chunk_id@[i as int]);
        let ok = (48 <= c && c <= 57) || (65 <= c && c <= 70) || (97 <= c && c <= 102) || c == 95
            || c == 45 || c == 58;
        if !ok {
            assert(!chunk_id_char(id[i - start]));
            return Err(XfmtError::InvalidChunkId);
        }
        let s = if c == 58 {
            '_'
        } else {
            c as char
        };
        push_char(&mut safe, s);
        if i - start < 2 {
            push_char(&mut shard, s);
        }
        assert(safe@ =~= safe_chunk_id(id).take(i + 1 - start));
        assert(shard@ =~= safe_chunk_id(id).take(if i + 1 - start < 2 { i + 1 - start } else { 2 }));
    }
    if n - start < 2 {
        return Err(XfmtError::ChunkIdTooShort);
    }
    assert(safe@ =~= safe_chunk_id(id));
    Ok(RepoChunkPath { root: repo_path.to_owned(), shard, file_name: safe })
}

/// Every chunk id that packing records, `sha256:` and the lower-case hex of a digest of
/// at least one byte, has a place in a repository: the file is named by the hex digits
/// and sharded by their first two.
pub proof fn lemma_digest_labels_have_repo_ids(d: Seq<u8>)
    requires
        d.len() >= 1,
    ensures
        repo_id(digest_label(d)) == hex_encode(d),
        repo_id(digest_label(d)).len() >= 2,
        forall|i: int| 0 <= i < repo_id(digest_label(d)).len() ==> chunk_id_char(
            #[trigger] repo_id(digest_label(d))[i],
        ),
        safe_chunk_id(hex_encode(d)) == hex_encode(d),
{
    reveal_strlit("sha256:");
    let l = digest_label(d);
    assert(l.take(7) =~= "sha256:"@);
    assert(l.skip(7) =~= hex_encode(d));
    assert(safe_chunk_id(hex_encode(d)) =~= hex_encode(d));
}

} // verus!
