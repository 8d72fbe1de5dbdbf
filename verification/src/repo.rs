//! The repository aggregate: the working-tree file listing, the remotes,
//! the metadata, the staging buffer, and the commit history, with the
//! read, init, commit and fetch protocols around them.
//!
//! Everything here computes on plain values; reading and writing the disk
//! and the network is the surrounding application's part.

use vstd::prelude::*;
use vstd::string::StrSliceExecFns;

use crate::commit::{parse_commit, Commit, CommitView, FileChanges};
use crate::error::{CommitParseFailedReason, Error, RepoErrorReason};
use crate::remote::Remote;
use crate::text::{is_prefix, lines_seq, split_seq, views_of};

verus! {

/// The name of the control directory that holds all persisted state.
pub open spec fn control_dir() -> Seq<char> {
    seq!['.', 'f', 'u', 'r', 's', 'i', 'o', 'n']
}

/// The control directory's name as text.
pub fn control_dir_name() -> (r: &'static str)
    ensures
        r@ == control_dir(),
{
    proof {
        reveal_strlit(".fursion");
        assert(".fursion"@ =~= control_dir());
    }
    ".fursion"
}

/// Whether a working-tree entry is tracked: everything but the control
/// directory. The scan takes this predicate rather than hard-coding it.
pub fn is_tracked_name(name: &str) -> (r: bool)
    ensures
        r == (name@ != control_dir()),
{
    !crate::text::str_eq(name, control_dir_name())
}

/// The author and name a persisted repository carries.
#[derive(Debug)]
pub struct RepoMetadata {
    pub author: String,
    pub name: String,
}

impl Clone for RepoMetadata {
    /// A copy with the same author and name.
    fn clone(&self) -> (r: Self)
        ensures
            r.author@ == self.author@,
            r.name@ == self.name@,
    {
        RepoMetadata { author: self.author.clone(), name: self.name.clone() }
    }
}

/// One working-tree entry: its path and its file name, as plain text.
#[derive(Debug)]
pub struct File {
    pub path: String,
    pub name: String,
}

impl Clone for File {
    /// A copy naming the same entry.
    fn clone(&self) -> (r: Self)
        ensures
            r.path@ == self.path@,
            r.name@ == self.name@,
    {
        File { path: self.path.clone(), name: self.name.clone() }
    }
}

/// The views of the commits in `v`.
pub open spec fn commit_views(v: Seq<Commit>) -> Seq<CommitView> {
    v.map_values(|c: Commit| c@)
}

proof fn lemma_commit_views_push(v: Seq<Commit>, x: Commit)
    ensures
        commit_views(v.push(x)) == commit_views(v).push(x@),
{
    assert(commit_views(v.push(x)) =~= commit_views(v).push(x@));
}

/// Every persisted history entry decoded as a commit, or the first
/// entry's failure: a single unreadable entry fails the whole history.
pub open spec fn parse_history(entries: Seq<Seq<char>>) -> Result<
    Seq<CommitView>,
    CommitParseFailedReason,
>
    decreases entries.len(),
{
    if entries.len() == 0 {
        Ok(Seq::empty())
    } else {
        match parse_commit(entries[0]) {
            Err(e) => Err(e),
            Ok(c) => match parse_history(entries.skip(1)) {
                Err(e) => Err(e),
                Ok(cs) => Ok(seq![c] + cs),
            },
        }
    }
}

/// The ordered, append-only commit log, persisted one file per commit.
#[derive(Debug)]
pub struct RepoHistory {
    vec: Vec<Commit>,
}

impl View for RepoHistory {
    type V = Seq<CommitView>;

    closed spec fn view(&self) -> Seq<CommitView> {
        commit_views(self.vec@)
    }
}

impl RepoHistory {
    /// An empty history.
    pub fn new() -> (r: Self)
        ensures
            r@.len() == 0,
    {
        RepoHistory { vec: Vec::new() }
    }

    /// Append one commit in memory. Nothing is persisted by this; the
    /// caller makes the append durable.
    pub fn push(&mut self, commit: Commit)
        ensures
            final(self)@ == old(self)@.push(commit@),
    {
        let ghost old_vec = self.vec@;
        let ghost cv = commit@;
        self.vec.push(commit);
        proof {
            lemma_commit_views_push(old_vec, self.vec@[self.vec@.len() - 1]);
        }
    }

    /// The commits, oldest first.
    pub fn commits(&self) -> (r: &Vec<Commit>)
        ensures
            commit_views(r@) == self@,
    {
        &self.vec
    }

    /// Rebuild a history from the text of every entry in the history
    /// directory.
    ///
    /// Each entry must decode as one commit; any single unreadable entry
    /// fails the whole read, so no partial history is ever returned.
    pub fn read(entries: &Vec<String>) -> (r: Result<Self, Error>)
        ensures
            match (r, parse_history(views_of(entries@))) {
                (Ok(h), Ok(vs)) => h@ == vs,
                (Err(e), Err(reason)) => e == Error::CommitParseFailed(reason),
                _ => false,
            },
    {
        let ghost eview = views_of(entries@);
        let mut vec: Vec<Commit> = Vec::new();
        let mut i: usize = 0;
        proof {
            assert(eview.skip(0) =~= eview);
        }
        while i < entries.len()
            invariant
                i <= entries@.len(),
                eview == views_of(entries@),
                match parse_history(eview.skip(i as int)) {
                    Ok(vs) => parse_history(eview) == Ok::<_, CommitParseFailedReason>(
                        commit_views(vec@) + vs,
                    ),
                    Err(e) => parse_history(eview) == Err::<Seq<CommitView>, _>(e),
                },
            decreases entries@.len() - i,
        {
            let ghost rest = eview.skip(i as int);
            proof {
                assert(rest[0] == eview[i as int]);
                assert(entries@[i as int]@ == eview[i as int]);
            }
            match Commit::from_str(entries[i].as_str()) {
                Ok(c) => {
                    let ghost old_vec = vec@;
                    let ghost cv = c@;
                    vec.push(c);
                    proof {
                        lemma_commit_views_push(old_vec, vec@[vec@.len() - 1]);
                        assert(rest.skip(1) =~= eview.skip(i + 1));
                        match parse_history(eview.skip(i + 1)) {
                            Ok(vs) => {
                                assert(parse_history(rest) == Ok::<_, CommitParseFailedReason>(
                                    seq![cv] + vs,
                                ));
                                assert(commit_views(old_vec) + (seq![cv] + vs) =~= commit_views(
                                    vec@,
                                ) + vs);
                            },
                            Err(_) => {},
                        }
                    }
                },
                Err(e) => {
                    return Err(e);
                },
            }
            i += 1;
        }
        proof {
            assert(eview.skip(entries@.len() as int) =~= Seq::<Seq<char>>::empty());
            assert(commit_views(vec@) + Seq::<CommitView>::empty() =~= commit_views(vec@));
        }
        Ok(RepoHistory { vec })
    }
}

/// The view of an optional piece of text.
pub open spec fn opt_view(t: Option<&str>) -> Option<Seq<char>> {
    match t {
        Some(s) => Some(s@),
        None => None,
    }
}

/// The views of the remotes in `v`.
pub open spec fn remote_views(v: Seq<Remote>) -> Seq<Seq<char>> {
    v.map_values(|r: Remote| r@)
}

proof fn lemma_remote_views_push(v: Seq<Remote>, x: Remote)
    ensures
        remote_views(v.push(x)) == remote_views(v).push(x@),
{
    assert(remote_views(v.push(x)) =~= remote_views(v).push(x@));
}

/// The remote URLs a remotes file holds: one per line; an absent file
/// holds none.
pub open spec fn remote_lines(t: Option<Seq<char>>) -> Seq<Seq<char>> {
    match t {
        None => Seq::empty(),
        Some(s) => lines_seq(s),
    }
}

/// An ignore-file line that names an ignored entry: non-empty and not a
/// comment.
pub open spec fn keep_ignore_line(l: Seq<char>) -> bool {
    l.len() > 0 && !is_prefix(seq!['#'], l) && !is_prefix(seq!['/', '/'], l)
}

/// The lines of `ls` that name ignored entries, in order.
pub open spec fn kept_lines(ls: Seq<Seq<char>>) -> Seq<Seq<char>> {
    ls.filter(|l: Seq<char>| keep_ignore_line(l))
}

proof fn lemma_kept_lines_push(ls: Seq<Seq<char>>, x: Seq<char>)
    ensures
        kept_lines(ls.push(x)) == if keep_ignore_line(x) {
            kept_lines(ls).push(x)
        } else {
            kept_lines(ls)
        },
{
    reveal(Seq::filter);
    assert(ls.push(x).drop_last() =~= ls);
    assert(ls.push(x).last() == x);
}

/// The names an ignore file rules out: its non-comment, non-blank lines,
/// taken verbatim; an absent file rules out nothing.
pub open spec fn ignored_names(t: Option<Seq<char>>) -> Seq<Seq<char>> {
    match t {
        None => Seq::empty(),
        Some(s) => kept_lines(lines_seq(s)),
    }
}

/// What a staging file holds: an absent or empty file stages nothing;
/// anything else must decode as a block of records.
pub open spec fn stated_parse(t: Option<Seq<char>>) -> Result<
    Seq<crate::commit::FileChangeView>,
    CommitParseFailedReason,
> {
    match t {
        None => Ok(Seq::empty()),
        Some(s) => if s.len() == 0 {
            Ok(Seq::empty())
        } else {
            crate::commit::parse_changes(s)
        },
    }
}

/// A path piece that is not empty.
pub open spec fn nonempty_piece(x: Seq<char>) -> bool {
    x.len() > 0
}

/// The non-empty pieces of a path split at `/`.
pub open spec fn nonempty_pieces(s: Seq<Seq<char>>) -> Seq<Seq<char>> {
    s.filter(|x: Seq<char>| nonempty_piece(x))
}

/// The final component of a path, in the library's path model: pieces
/// between `/` separators, trailing separators ignored. A path without a
/// component, or one ending in `.` or `..`, has no name.
pub open spec fn name_of_path(p: Seq<char>) -> Option<Seq<char>> {
    let pieces = nonempty_pieces(split_seq(p, seq!['/']));
    if pieces.len() == 0 {
        None
    } else if pieces.last() == seq!['.'] || pieces.last() == seq!['.', '.'] {
        None
    } else {
        Some(pieces.last())
    }
}

proof fn lemma_nonempty_pieces_last(s: Seq<Seq<char>>, j: int)
    requires
        0 <= j < s.len(),
        nonempty_piece(s[j]),
        forall|k: int| j < k < s.len() ==> !nonempty_piece(#[trigger] s[k]),
    ensures
        nonempty_pieces(s).len() > 0,
        nonempty_pieces(s).last() == s[j],
    decreases s.len(),
{
    if j == s.len() - 1 {
        assert(s.drop_last().push(s.last()) =~= s);
        lemma_kept_shape_last(s);
    } else {
        assert(!nonempty_piece(s.last()));
        assert(s.drop_last().push(s.last()) =~= s);
        lemma_kept_shape_last(s);
        assert(forall|k: int|
            j < k < s.drop_last().len() ==> !nonempty_piece(#[trigger] s.drop_last()[k]));
        lemma_nonempty_pieces_last(s.drop_last(), j);
    }
}

/// One unfolding of the non-empty filter at the last element.
proof fn lemma_kept_shape_last(s: Seq<Seq<char>>)
    requires
        s.len() > 0,
    ensures
        nonempty_pieces(s) == if nonempty_piece(s.last()) {
            nonempty_pieces(s.drop_last()).push(s.last())
        } else {
            nonempty_pieces(s.drop_last())
        },
{
    reveal(Seq::filter);
    assert(s.drop_last().push(s.last()) =~= s);
}

proof fn lemma_nonempty_pieces_none(s: Seq<Seq<char>>)
    requires
        forall|k: int| 0 <= k < s.len() ==> !nonempty_piece(#[trigger] s[k]),
    ensures
        nonempty_pieces(s).len() == 0,
    decreases s.len(),
{
    reveal(Seq::filter);
    if s.len() > 0 {
        lemma_kept_shape_last(s);
        assert(!nonempty_piece(s.last()));
        lemma_nonempty_pieces_none(s.drop_last());
    }
}

/// The remotes a remotes file names, one per line, in order.
fn parse_remotes(text: Option<&str>) -> (r: Vec<Remote>)
    ensures
        remote_views(r@) == remote_lines(opt_view(text)),
{
    let mut remotes: Vec<Remote> = Vec::new();
    match text {
        None => {
            proof {
                assert(remote_views(remotes@) =~= remote_lines(opt_view(text)));
            }
            remotes
        },
        Some(t) => {
            let lines = crate::text::lines_of(t);
            let ghost lviews = views_of(lines@);
            let mut i: usize = 0;
            while i < lines.len()
                invariant
                    i <= lines@.len(),
                    lviews == views_of(lines@),
                    remote_views(remotes@) == lviews.subrange(0, i as int),
                decreases lines@.len() - i,
            {
                let ghost old_remotes = remotes@;
                let next = Remote::new(lines[i].as_str());
                remotes.push(next);
                proof {
                    lemma_remote_views_push(old_remotes, remotes@[remotes@.len() - 1]);
                    assert(remote_views(remotes@) =~= lviews.subrange(0, i + 1));
                }
                i += 1;
            }
            proof {
                assert(lviews.subrange(0, lines@.len() as int) =~= lviews);
            }
            remotes
        },
    }
}

/// Whether an ignore-file line names an ignored entry.
fn keeps_line(line: &str) -> (r: bool)
    ensures
        r == keep_ignore_line(line@),
{
    proof {
        reveal_strlit("#");
        reveal_strlit("//");
        assert("#"@ =~= seq!['#']);
        assert("//"@ =~= seq!['/', '/']);
    }
    line.unicode_len() > 0 && !crate::text::has_prefix(line, "#") && !crate::text::has_prefix(
        line,
        "//",
    )
}

/// The final path component, or nothing for a root-like path.
fn repo_name_of(path: &str) -> (r: Option<String>)
    ensures
        match r {
            Some(n) => name_of_path(path@) == Some(n@),
            None => name_of_path(path@) is None,
        },
{
    proof {
        reveal_strlit("/");
        assert("/"@ =~= seq!['/']);
    }
    let pieces = crate::text::split_on(path, "/");
    let ghost pviews = views_of(pieces@);
    let mut j: usize = pieces.len();
    while j > 0
        invariant
            j <= pieces@.len(),
            pviews == views_of(pieces@),
            pviews == split_seq(path@, seq!['/']),
            forall|k: int| j <= k < pviews.len() ==> !nonempty_piece(#[trigger] pviews[k]),
        decreases j,
    {
        proof {
            assert(pieces@[j - 1]@ == pviews[j - 1]);
        }
        if pieces[j - 1].as_str().unicode_len() > 0 {
            proof {
                lemma_nonempty_pieces_last(pviews, j - 1);
                reveal_strlit(".");
                reveal_strlit("..");
                assert("."@ =~= seq!['.']);
                assert(".."@ =~= seq!['.', '.']);
            }
            let piece = pieces[j - 1].as_str();
            proof {
                assert(pviews == split_seq(path@, seq!['/']));
                assert(nonempty_pieces(pviews).last() == piece@);
            }
            if crate::text::str_eq(piece, ".") || crate::text::str_eq(piece, "..") {
                return None;
            }
            return Some(piece.to_owned());
        }
        j -= 1;
    }
    proof {
        lemma_nonempty_pieces_none(pviews);
    }
    None
}

/// The repository aggregate. The disk, not this value, is the source of
/// truth: the value is rebuilt from the disk by the read protocol and
/// outlives nothing.
#[derive(Debug)]
pub struct Repo {
    /// The working-tree entries, excluding the control directory.
    pub files: Vec<File>,
    /// The remotes connected to this repository, in file order.
    pub remotes: Vec<Remote>,
    /// The commit history, oldest first.
    pub history: RepoHistory,
    /// The author and name of the repository.
    pub metadata: RepoMetadata,
    /// The single pending staging buffer. It is consumed whole, and left
    /// empty, by the next successful commit.
    pub stated_changes: FileChanges,
    /// The repository root, as text.
    pub path: String,
    /// Names excluded from tracking, like an ignore file's entries.
    pub ignored: Vec<String>,
}

impl Repo {
    /// Assemble a repository from everything the on-disk layout yields.
    ///
    /// The staging file and every history entry must decode; a failure of
    /// either fails the whole read, staging first, so no partially
    /// populated repository is ever returned. An absent or empty staging
    /// file stages nothing and an absent remotes or ignore file yields
    /// none.
    pub fn read(
        path: &str,
        remotes_text: Option<&str>,
        files: Vec<File>,
        metadata: RepoMetadata,
        stated_text: Option<&str>,
        history_entries: &Vec<String>,
        ignored_text: Option<&str>,
    ) -> (r: Result<Repo, Error>)
        ensures
            r is Ok <==> (stated_parse(opt_view(stated_text)) is Ok) && (parse_history(
                views_of(history_entries@),
            ) is Ok),
            r matches Ok(repo) ==> {
                &&& repo.path@ == path@
                &&& repo.files == files
                &&& repo.metadata == metadata
                &&& remote_views(repo.remotes@) == remote_lines(opt_view(remotes_text))
                &&& Ok::<_, CommitParseFailedReason>(repo.stated_changes@) == stated_parse(
                    opt_view(stated_text),
                )
                &&& Ok::<_, CommitParseFailedReason>(repo.history@) == parse_history(
                    views_of(history_entries@),
                )
                &&& views_of(repo.ignored@) == ignored_names(opt_view(ignored_text))
            },
            stated_parse(opt_view(stated_text)) matches Err(reason) ==> r == Err::<Repo, _>(
                Error::CommitParseFailed(reason),
            ),
            stated_parse(opt_view(stated_text)) is Ok ==> (parse_history(
                views_of(history_entries@),
            ) matches Err(reason) ==> r == Err::<Repo, _>(Error::CommitParseFailed(reason))),
    {
        let remotes = parse_remotes(remotes_text);
        let stated_changes: FileChanges = match stated_text {
            None => {
                let cs = FileChanges::new(Vec::new());
                proof {
                    assert(cs@ =~= Seq::<crate::commit::FileChangeView>::empty());
                }
                cs
            },
            Some(t) => {
                if t.unicode_len() == 0 {
                    let cs = FileChanges::new(Vec::new());
                    proof {
                        assert(cs@ =~= Seq::<crate::commit::FileChangeView>::empty());
                    }
                    cs
                } else {
                    match FileChanges::from_str(t) {
                        Ok(cs) => cs,
                        Err(e) => {
                            return Err(e);
                        },
                    }
                }
            },
        };
        let history = match RepoHistory::read(history_entries) {
            Ok(h) => h,
            Err(e) => {
                return Err(e);
            },
        };
        let ignored = Self::get_ignored(ignored_text);
        Ok(
            Repo {
                path: path.to_owned(),
                stated_changes,
                metadata,
                files,
                remotes,
                history,
                ignored,
            },
        )
    }

    /// A fresh repository at the given path.
    ///
    /// Refuses to clobber an existing repository: a present control
    /// directory fails the call. The name comes from the path's final
    /// component; a path without one cannot host a repository. The new
    /// value starts with an empty history, empty staging buffer and no
    /// remotes; the caller persists it.
    pub fn init(
        path: &str,
        control_dir_exists: bool,
        files: Vec<File>,
        ignored: Vec<String>,
    ) -> (r: Result<Repo, Error>)
        ensures
            r is Ok <==> !control_dir_exists && name_of_path(path@) is Some,
            r matches Ok(repo) ==> {
                &&& repo.path@ == path@
                &&& repo.metadata.name@ == name_of_path(path@)->Some_0
                &&& repo.metadata.author@.len() == 0
                &&& repo.files == files
                &&& repo.ignored == ignored
                &&& repo.history@.len() == 0
                &&& repo.stated_changes@.len() == 0
                &&& repo.remotes@.len() == 0
            },
            control_dir_exists ==> (r matches Err(e) && (e matches Error::RepoInitFailed(reason)
                && (reason matches RepoErrorReason::RepoAlreadyExists(p) && p@ == path@))),
            !control_dir_exists && name_of_path(path@) is None ==> (r matches Err(e)
                && e matches Error::RepoInitFailed(RepoErrorReason::CantInitAtRootDiskLocation)),
    {
        if control_dir_exists {
            return Err(Error::RepoInitFailed(RepoErrorReason::RepoAlreadyExists(path.to_owned())));
        }
        let name = match repo_name_of(path) {
            Some(n) => n,
            None => {
                return Err(Error::RepoInitFailed(RepoErrorReason::CantInitAtRootDiskLocation));
            },
        };
        Ok(
            Repo {
                path: path.to_owned(),
                metadata: RepoMetadata { author: String::new(), name },
                stated_changes: FileChanges::new(Vec::new()),
                remotes: Vec::new(),
                files,
                history: RepoHistory::new(),
                ignored,
            },
        )
    }

    /// Bundle what is staged into one new commit.
    ///
    /// A non-empty staging buffer is taken whole as the commit's changes
    /// and left empty; it is never implicitly repopulated. With nothing
    /// staged a diff is computed instead, which for now is always empty.
    /// The commit is appended to the in-memory history; the caller makes
    /// it durable.
    pub fn commit(&mut self, message: &str) -> (r: Result<(), Error>)
        ensures
            r is Ok,
            final(self).path == old(self).path,
            final(self).files == old(self).files,
            final(self).remotes == old(self).remotes,
            final(self).metadata == old(self).metadata,
            final(self).ignored == old(self).ignored,
            final(self).stated_changes@.len() == 0,
            final(self).history@.len() == old(self).history@.len() + 1,
            final(self).history@ == old(self).history@.push(final(self).history@.last()),
            final(self).history@.last().message == message@,
            old(self).stated_changes@.len() > 0 ==> final(self).history@.last().changes == old(
                self,
            ).stated_changes@,
            old(self).stated_changes@.len() == 0 ==> final(self).history@.last().changes.len() == 0,
    {
        let changes: FileChanges;
        if !self.stated_changes.is_empty() {
            let mut taken = FileChanges::new(Vec::new());
            core::mem::swap(&mut taken, &mut self.stated_changes);
            changes = taken;
        } else {
            changes = match self.get_diff() {
                Ok(c) => c,
                Err(e) => {
                    return Err(e);
                },
            };
        }
        let commit = Commit::new(message, changes);
        self.history.push(commit);
        Ok(())
    }

    /// A diff of the working tree against the last commit.
    ///
    /// Diff computation is not part of this core: the result is always
    /// the empty bundle, and callers rely on exactly that.
    pub fn get_diff(&self) -> (r: Result<FileChanges, Error>)
        ensures
            match r {
                Ok(c) => c@.len() == 0,
                Err(_) => false,
            },
    {
        Ok(FileChanges::new(Vec::new()))
    }

    /// The names an ignore file rules out: each non-empty line that does
    /// not start a comment, taken verbatim; an absent file rules out
    /// nothing.
    pub fn get_ignored(text: Option<&str>) -> (r: Vec<String>)
        ensures
            views_of(r@) == ignored_names(opt_view(text)),
    {
        let mut kept: Vec<String> = Vec::new();
        match text {
            None => {
                proof {
                    assert(views_of(kept@) =~= ignored_names(opt_view(text)));
                }
                kept
            },
            Some(t) => {
                let lines = crate::text::lines_of(t);
                let ghost lviews = views_of(lines@);
                let mut i: usize = 0;
                proof {
                    assert(lviews.subrange(0, 0) =~= Seq::<Seq<char>>::empty());
                    assert(kept_lines(Seq::<Seq<char>>::empty()) =~= Seq::<Seq<char>>::empty());
                    assert(views_of(kept@) =~= Seq::<Seq<char>>::empty());
                }
                while i < lines.len()
                    invariant
                        i <= lines@.len(),
                        lviews == views_of(lines@),
                        views_of(kept@) == kept_lines(lviews.subrange(0, i as int)),
                    decreases lines@.len() - i,
                {
                    let ghost done = lviews.subrange(0, i as int);
                    proof {
                        assert(done.push(lviews[i as int]) =~= lviews.subrange(0, i + 1));
                        lemma_kept_lines_push(done, lviews[i as int]);
                        assert(lines@[i as int]@ == lviews[i as int]);
                    }
                    if keeps_line(lines[i].as_str()) {
                        let ghost old_kept = kept@;
                        let line = lines[i].clone();
                        kept.push(line);
                        proof {
                            assert(views_of(kept@) =~= views_of(old_kept).push(
                                lviews[i as int],
                            ));
                        }
                    }
                    i += 1;
                }
                proof {
                    assert(lviews.subrange(0, lines@.len() as int) =~= lviews);
                }
                kept
            },
        }
    }

    /// Nothing yet: pulling is not part of this core.
    pub fn pull(&mut self)
        ensures
            *final(self) == *old(self),
    {
    }

    /// Swap in a freshly read state and hand back the displaced one,
    /// for rollback or change detection.
    pub fn replace(&mut self, new: Self) -> (r: Self)
        ensures
            *final(self) == new,
            r == *old(self),
    {
        let mut displaced = new;
        core::mem::swap(self, &mut displaced);
        displaced
    }

    /// The batch result of fetching every remote: one entry per remote,
    /// in the remotes' order, each a snapshot or that remote's own
    /// failure. One remote's failure never touches another's entry.
    pub fn collect_fetch_results(outcomes: Vec<Result<Repo, String>>) -> (r: Vec<
        Result<Repo, Error>,
    >)
        ensures
            r@.len() == outcomes@.len(),
            forall|i: int|
                0 <= i < r@.len() ==> match (#[trigger] outcomes@[i], r@[i]) {
                    (Ok(repo), Ok(got)) => got == repo,
                    (Err(msg), Err(e)) => e == Error::RepoFetchFailed(msg),
                    _ => false,
                },
    {
        let ghost orig = outcomes@;
        let mut rest = outcomes;
        let mut out: Vec<Result<Repo, Error>> = Vec::new();
        proof {
            assert(rest@ =~= orig.skip(0));
        }
        while rest.len() > 0
            invariant
                out@.len() + rest@.len() == orig.len(),
                rest@ == orig.skip(out@.len() as int),
                forall|i: int|
                    0 <= i < out@.len() ==> match (#[trigger] orig[i], out@[i]) {
                        (Ok(repo), Ok(got)) => got == repo,
                        (Err(msg), Err(e)) => e == Error::RepoFetchFailed(msg),
                        _ => false,
                    },
            decreases rest@.len(),
        {
            let ghost k = out@.len() as int;
            proof {
                assert(rest@[0] == orig[k]);
            }
            let next = rest.remove(0);
            match next {
                Ok(repo) => {
                    out.push(Ok(repo));
                },
                Err(msg) => {
                    out.push(Err(Error::RepoFetchFailed(msg)));
                },
            }
            proof {
                assert(rest@ =~= orig.skip(out@.len() as int));
            }
        }
        out
    }
}

} // verus!
