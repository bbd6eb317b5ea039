//! Records for repositories and files, and the request shapes that the
//! service operations take.
//!
//! Timestamps are UTC milliseconds; repository identifiers are opaque
//! 128-bit values.

use vstd::prelude::*;

verus! {

/// Mathematical view of a file record.
pub ghost struct FileRec {
    pub repo_id: u128,
    pub path: Seq<char>,
    pub size_bytes: u64,
    pub etag: Seq<char>,
    pub content_type: Seq<char>,
    pub created_at: i64,
    pub updated_at: i64,
    pub last_accessed_at: i64,
    pub access_count: u64,
    pub expires_at: Option<i64>,
}

/// Metadata of one stored file.
#[derive(Debug)]
pub struct FileMeta {
    pub repo_id: u128,
    pub path: String,
    pub size_bytes: u64,
    pub etag: String,
    pub content_type: String,
    pub created_at: i64,
    pub updated_at: i64,
    pub last_accessed_at: i64,
    pub access_count: u64,
    pub expires_at: Option<i64>,
}

impl View for FileMeta {
    type V = FileRec;

    open spec fn view(&self) -> FileRec {
        FileRec {
            repo_id: self.repo_id,
            path: self.path@,
            size_bytes: self.size_bytes,
            etag: self.etag@,
            content_type: self.content_type@,
            created_at: self.created_at,
            updated_at: self.updated_at,
            last_accessed_at: self.last_accessed_at,
            access_count: self.access_count,
            expires_at: self.expires_at,
        }
    }
}

impl Clone for FileMeta {
    fn clone(&self) -> (r: Self)
        ensures
            r@ == self@,
    {
        FileMeta {
            repo_id: self.repo_id,
            path: self.path.clone(),
            size_bytes: self.size_bytes,
            etag: self.etag.clone(),
            content_type: self.content_type.clone(),
            created_at: self.created_at,
            updated_at: self.updated_at,
            last_accessed_at: self.last_accessed_at,
            access_count: self.access_count,
            expires_at: self.expires_at,
        }
    }
}

/// The tag map of a repository, read as a mathematical map; a later pair
/// with the same key wins.
pub open spec fn tags_map(s: Seq<(Seq<char>, Seq<char>)>) -> Map<Seq<char>, Seq<char>>
    decreases s.len(),
{
    if s.len() == 0 {
        Map::empty()
    } else {
        tags_map(s.drop_last()).insert(s.last().0, s.last().1)
    }
}

/// Mathematical view of a repository record.
pub ghost struct RepoRec {
    pub id: u128,
    pub name: Seq<char>,
    pub max_size_bytes: u64,
    pub current_size_bytes: u64,
    pub file_count: u64,
    pub created_at: i64,
    pub updated_at: i64,
    pub last_accessed_at: i64,
    pub default_ttl_seconds: Option<u64>,
    pub tags: Map<Seq<char>, Seq<char>>,
}

/// Metadata of one repository.
#[derive(Debug)]
pub struct RepoMeta {
    pub id: u128,
    pub name: String,
    pub max_size_bytes: u64,
    pub current_size_bytes: u64,
    pub file_count: u64,
    pub created_at: i64,
    pub updated_at: i64,
    pub last_accessed_at: i64,
    pub default_ttl_seconds: Option<u64>,
    pub tags: Vec<(String, String)>,
}

impl View for RepoMeta {
    type V = RepoRec;

    open spec fn view(&self) -> RepoRec {
        RepoRec {
            id: self.id,
            name: self.name@,
            max_size_bytes: self.max_size_bytes,
            current_size_bytes: self.current_size_bytes,
            file_count: self.file_count,
            created_at: self.created_at,
            updated_at: self.updated_at,
            last_accessed_at: self.last_accessed_at,
            default_ttl_seconds: self.default_ttl_seconds,
            tags: tags_map(self.tags@.map_values(|p: (String, String)| (p.0@, p.1@))),
        }
    }
}

/// Clone a tag list pair by pair.
pub fn clone_tags(tags: &Vec<(String, String)>) -> (r: Vec<(String, String)>)
    ensures
        r@.map_values(|p: (String, String)| (p.0@, p.1@)) == tags@.map_values(
            |p: (String, String)| (p.0@, p.1@),
        ),
{
    let mut out: Vec<(String, String)> = Vec::new();
    let mut i: usize = 0;
    while i < tags.len()
        invariant
            i <= tags@.len(),
            out@.map_values(|p: (String, String)| (p.0@, p.1@)) == tags@.subrange(0, i as int)
                .map_values(|p: (String, String)| (p.0@, p.1@)),
        decreases tags@.len() - i,
    {
        let ghost out0 = out@;
        let pair = (tags[i].0.clone(), tags[i].1.clone());
        out.push(pair);
        proof {
            assert(tags@.subrange(0, i + 1).map_values(|p: (String, String)| (p.0@, p.1@)) =~= tags@
                .subrange(0, i as int).map_values(|p: (String, String)| (p.0@, p.1@)).push(
                (tags@[i as int].0@, tags@[i as int].1@),
            ));
            assert(out@.map_values(|p: (String, String)| (p.0@, p.1@)) =~= out0.map_values(
                |p: (String, String)| (p.0@, p.1@),
            ).push((tags@[i as int].0@, tags@[i as int].1@)));
        }
        i += 1;
    }
    proof {
        assert(tags@.subrange(0, tags@.len() as int) =~= tags@);
    }
    out
}

impl Clone for RepoMeta {
    fn clone(&self) -> (r: Self)
        ensures
            r@ == self@,
    {
        RepoMeta {
            id: self.id,
            name: self.name.clone(),
            max_size_bytes: self.max_size_bytes,
            current_size_bytes: self.current_size_bytes,
            file_count: self.file_count,
            created_at: self.created_at,
            updated_at: self.updated_at,
            last_accessed_at: self.last_accessed_at,
            default_ttl_seconds: self.default_ttl_seconds,
            tags: clone_tags(&self.tags),
        }
    }
}

/// Body of a repository-creation request.
pub struct CreateRepoRequest {
    pub name: String,
    pub max_size_bytes: Option<u64>,
    pub default_ttl_seconds: Option<u64>,
}

/// Body of a repository patch. `default_ttl_seconds` is a nested
/// optional: absent means "do not touch", present-but-`None` clears it.
pub struct UpdateRepoRequest {
    pub name: Option<String>,
    pub max_size_bytes: Option<u64>,
    pub default_ttl_seconds: Option<Option<u64>>,
    pub tags: Option<Vec<(String, String)>>,
}

/// Query parameters of the repository listing.
pub struct ListReposQuery {
    pub page: Option<u64>,
    pub per_page: Option<u64>,
    pub sort: Option<String>,
}

/// Query parameters of the file listing.
pub struct ListFilesQuery {
    pub prefix: Option<String>,
    pub recursive: Option<bool>,
    pub page: Option<u64>,
    pub per_page: Option<u64>,
}

/// Body of a move request.
pub struct MoveFileRequest {
    pub source: String,
    pub destination: String,
}

/// Body of a copy request.
pub struct CopyFileRequest {
    pub source: String,
    pub destination: String,
}

/// Body of an archive request.
pub struct ArchiveRequest {
    pub path: Option<String>,
    pub format: Option<String>,
}

} // verus!
