//! The hosting façade: the lookup a snapshot server answers with. The
//! HTTP front end, and the try-lock admission control around the shared
//! repository collection, live in the surrounding application.

use vstd::prelude::*;

use crate::error::{Error, HostErrorKind};
use crate::repo::Repo;

verus! {

/// A host serving repository snapshots over the read endpoint.
pub struct Server;

/// Whether a repository answers to the given author and name.
pub open spec fn repo_matches(repo: Repo, author: Seq<char>, name: Seq<char>) -> bool {
    repo.metadata.author@ == author && repo.metadata.name@ == name
}

/// The first repository of the collection that answers to the given
/// author and name, or a not-found failure when none does.
pub fn find_repo<'a>(repos: &'a Vec<Repo>, author: &str, name: &str) -> (r: Result<
    &'a Repo,
    Error,
>)
    ensures
        match r {
            Ok(repo) => exists|i: int|
                0 <= i < repos@.len() && repos@[i] == *repo && repo_matches(
                    repos@[i],
                    author@,
                    name@,
                ) && (forall|j: int| 0 <= j < i ==> !repo_matches(#[trigger] repos@[j], author@, name@)),
            Err(e) => e == Error::HostError(HostErrorKind::RepoNotFound) && (forall|j: int|
                0 <= j < repos@.len() ==> !repo_matches(#[trigger] repos@[j], author@, name@)),
        },
{
    let mut i: usize = 0;
    while i < repos.len()
        invariant
            i <= repos@.len(),
            forall|j: int| 0 <= j < i ==> !repo_matches(#[trigger] repos@[j], author@, name@),
        decreases repos@.len() - i,
    {
        let candidate = &repos[i];
        if crate::text::str_eq(candidate.metadata.author.as_str(), author) && crate::text::str_eq(
            candidate.metadata.name.as_str(),
            name,
        ) {
            return Ok(candidate);
        }
        i += 1;
    }
    Err(Error::HostError(HostErrorKind::RepoNotFound))
}

} // verus!
