//! The checked part of archive requests: only one format exists, and a
//! requested subtree goes through the path validator.

use vstd::prelude::*;
use vstd::string::*;

use crate::error::AppError;
use crate::models::ArchiveRequest;
use crate::path_validate::{clean_path, norm_seps, seg_scan, validate_relative_path, SegScan};
use crate::text::str_eq;

verus! {

/// Decide what an archive request covers: the whole tree, or one
/// validated subtree. Only the `tar.gz` format is supported.
pub fn plan_archive(req: &ArchiveRequest) -> (r: Result<Option<String>, AppError>)
    ensures
        match r {
            Ok(sub) => {
                &&& (match req.format {
                    Some(f) => f@ == "tar.gz"@,
                    None => true,
                })
                &&& (match (&req.path, sub) {
                    (Some(p), Some(q)) => q@ == clean_path(norm_seps(p@)),
                    (None, None) => true,
                    _ => false,
                })
            },
            Err(e) => e is BadRequest || e is Forbidden,
        },
        r is Err ==> (match req.format {
            Some(f) => f@ != "tar.gz"@,
            None => false,
        } || match &req.path {
            Some(p) => !(p@.len() > 0 && seg_scan(norm_seps(p@), 0) is Clean && clean_path(
                norm_seps(p@),
            ).len() > 0),
            None => false,
        }),
{
    match &req.format {
        Some(f) => {
            if !str_eq(f.as_str(), "tar.gz") {
                return Err(AppError::BadRequest(
                    String::from_str("Only tar.gz format is currently supported"),
                ));
            }
        },
        None => {},
    }
    match &req.path {
        Some(p) => {
            let clean = validate_relative_path(p.as_str())?;
            Ok(Some(clean))
        },
        None => Ok(None),
    }
}

} // verus!
