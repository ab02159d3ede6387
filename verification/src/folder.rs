//! Folder comparison by content and metadata.
//!
//! Two folder listings are merged into one tree, and every entry gets a status: added,
//! deleted, modified, unchanged, or unknown when one side could not be read. An entry
//! present on both sides is modified if anything `lstat` reports differs (its kind,
//! size, permissions, owner, modification time or symlink target) or if its content
//! does, which is settled by hashing only the files whose sizes match.

use vstd::prelude::*;

use crate::chars::{chars_of, decimal, decimal_string, parse_i128, parsed_i128, string_of, to_lowercase, lowercase};
use crate::order::{lex_lt, Order, SortKey, compare_chars, sorted_order, sorted_by_keys, distinct_keys};
use crate::folder_laws::{forest_paths, subtree_paths, level_ok, lemma_count_fits, lemma_forest_paths, lemma_subtree_paths, lemma_tree_paths};

verus! {

#[derive(Clone, Copy, Debug, PartialEq, Eq, Structural)]
pub enum EntryKind {
    File,
    Dir,
    Symlink,
    /// A FIFO, socket or device. Its metadata is compared, its content never read.
    Other,
}

#[derive(Clone, Copy, Debug, PartialEq, Eq, Structural)]
pub enum Side {
    Left,
    Right,
}

impl Side {
    /// The side's name, as messages spell it.
    pub fn name(&self) -> (res: &'static str)
        ensures
            res@ == side_name(*self),
    {
        match self {
            Side::Left => "left",
            Side::Right => "right",
        }
    }
}

pub open spec fn side_name(side: Side) -> Seq<char> {
    match side {
        Side::Left => "left"@,
        Side::Right => "right"@,
    }
}

/// One entry of a folder listing, as reported by `lstat`.
///
/// Every entry below the compared folder must be listed, folders included: an
/// entry whose parent folder is missing from the listing is rejected.
#[derive(Clone, Debug, PartialEq, Eq)]
pub struct FsEntry {
    /// Relative to the compared folder, `/`-separated, with no `.` or `..` segments.
    /// Paths are case-sensitive, so `a.txt` and `A.txt` are different entries.
    pub path: String,
    pub kind: EntryKind,
    pub size: u64,
    /// The full POSIX `st_mode`, type bits included.
    pub mode: u32,
    pub uid: u32,
    pub gid: u32,
    /// Modification time in nanoseconds since the epoch, as a decimal string.
    pub mtime_ns: String,
    /// Where a symlink points. Set for symlinks only.
    pub link_target: Option<String>,
    /// Why this entry could not be fully read. Its metadata is then not trusted.
    pub error: Option<String>,
}

#[derive(Clone, Copy, Debug, PartialEq, Eq, Structural)]
pub enum ChangeStatus {
    Added,
    Deleted,
    Modified,
    Unchanged,
    /// Present on both sides, but one of them could not be read.
    Unknown,
}

/// Why an entry present on both sides is [`ChangeStatus::Modified`].
#[derive(Clone, Copy, Debug, PartialEq, Eq, Structural)]
pub enum ChangeReason {
    /// A different kind of entry, such as a file replaced by a folder.
    Kind,
    Content,
    Size,
    Permissions,
    /// A different owning user or group.
    Owner,
    ModifiedTime,
    LinkTarget,
}

/// A file whose content has to be hashed before the comparison can finish.
#[derive(Clone, Debug, PartialEq, Eq)]
pub struct HashJob {
    pub id: u32,
    pub side: Side,
    pub path: String,
    /// The file's size in the listing, the same on both sides.
    pub size: u64,
}

#[derive(Debug, PartialEq, Eq)]
pub struct TreeNode {
    pub name: String,
    pub path: String,
    /// The entry's kind on the left, or none when it only exists on the right.
    pub left_kind: Option<EntryKind>,
    /// The entry's kind on the right, or none when it only exists on the left.
    pub right_kind: Option<EntryKind>,
    pub status: ChangeStatus,
    /// Every way the entry differs; empty unless `status` is `Modified`.
    pub reasons: Vec<ChangeReason>,
    /// This entry or anything inside it is not `Unchanged`.
    pub has_changes: bool,
    pub error: Option<String>,
    /// Folders first, then by name ignoring case.
    pub children: Vec<TreeNode>,
}

pub open spec fn is_folder_spec(left_kind: Option<EntryKind>, right_kind: Option<EntryKind>) -> bool {
    left_kind == Some(EntryKind::Dir) || right_kind == Some(EntryKind::Dir)
}

impl TreeNode {
    /// The entry is a folder on either side.
    pub fn is_folder(&self) -> (res: bool)
        ensures
            res == is_folder_spec(self.left_kind, self.right_kind),
            res == (self.left_kind == Some(EntryKind::Dir) || self.right_kind == Some(EntryKind::Dir)),
    {
        self.left_kind == Some(EntryKind::Dir) || self.right_kind == Some(EntryKind::Dir)
    }
}

/// Entries counted by status, at every depth.
#[derive(Clone, Copy, Debug, PartialEq, Eq, Structural)]
pub struct FolderStats {
    pub added: usize,
    pub deleted: usize,
    pub modified: usize,
    pub unchanged: usize,
    pub unknown: usize,
}

impl FolderStats {
    /// No entries counted.
    pub fn new() -> (res: FolderStats)
        ensures
            res == (FolderStats { added: 0, deleted: 0, modified: 0, unchanged: 0, unknown: 0 }),
    {
        FolderStats { added: 0, deleted: 0, modified: 0, unchanged: 0, unknown: 0 }
    }

    /// The count of one status.
    pub open spec fn of(self, status: ChangeStatus) -> int {
        match status {
            ChangeStatus::Added => self.added as int,
            ChangeStatus::Deleted => self.deleted as int,
            ChangeStatus::Modified => self.modified as int,
            ChangeStatus::Unchanged => self.unchanged as int,
            ChangeStatus::Unknown => self.unknown as int,
        }
    }

    /// Counts one more entry with the status.
    pub fn count(&mut self, status: ChangeStatus)
        requires
            old(self).of(status) < usize::MAX,
        ensures
            forall|s: ChangeStatus| #[trigger] final(self).of(s) == old(self).of(s) + if s == status { 1int } else { 0int },
    {
        match status {
            ChangeStatus::Added => self.added = self.added + 1,
            ChangeStatus::Deleted => self.deleted = self.deleted + 1,
            ChangeStatus::Modified => self.modified = self.modified + 1,
            ChangeStatus::Unchanged => self.unchanged = self.unchanged + 1,
            ChangeStatus::Unknown => self.unknown = self.unknown + 1,
        }
    }

    /// Adds another tally to this one, status by status.
    pub fn add(&mut self, other: FolderStats)
        requires
            forall|s: ChangeStatus| old(self).of(s) + #[trigger] other.of(s) <= usize::MAX,
        ensures
            forall|s: ChangeStatus| #[trigger] final(self).of(s) == old(self).of(s) + other.of(s),
    {
        proof {
            assert(other.of(ChangeStatus::Added) == other.added);
            assert(other.of(ChangeStatus::Deleted) == other.deleted);
            assert(other.of(ChangeStatus::Modified) == other.modified);
            assert(other.of(ChangeStatus::Unchanged) == other.unchanged);
            assert(other.of(ChangeStatus::Unknown) == other.unknown);
        }
        self.added = self.added + other.added;
        self.deleted = self.deleted + other.deleted;
        self.modified = self.modified + other.modified;
        self.unchanged = self.unchanged + other.unchanged;
        self.unknown = self.unknown + other.unknown;
    }
}

#[derive(Debug, PartialEq, Eq)]
pub struct FolderDiff {
    /// The top-level entries of both folders.
    pub entries: Vec<TreeNode>,
    pub stats: FolderStats,
    /// Every entry is unchanged.
    pub identical: bool,
}

#[derive(Clone, Debug, PartialEq, Eq)]
pub enum DiffError {
    /// A listing entry is malformed, listed twice, or inside something that is not a
    /// listed folder.
    InvalidEntry { side: Side, path: String, reason: &'static str },
    /// A hash or error was recorded for a job the comparer never handed out.
    UnknownJob(u32),
    /// A compared folder itself could not be listed.
    Unreadable { side: Side, reason: String },
}

/// What a folder comparison error says.
pub open spec fn error_message(e: DiffError) -> Seq<char> {
    match e {
        DiffError::InvalidEntry { side, path, reason } => side_name(side) + " entry \""@ + path@ + "\": "@ + reason@,
        DiffError::UnknownJob(id) => "unknown hash job "@ + decimal(id as nat),
        DiffError::Unreadable { side, reason } => side_name(side) + " folder could not be listed: "@ + reason@,
    }
}

impl DiffError {
    /// The error as a sentence.
    pub fn message(&self) -> (res: String)
        ensures
            res@ == error_message(*self),
    {
        match self {
            DiffError::InvalidEntry { side, path, reason } => {
                let mut m = String::from_str(side.name());
                m.append(" entry \"");
                m.append(path.as_str());
                m.append("\": ");
                m.append(reason);
                m
            },
            DiffError::UnknownJob(id) => {
                let mut m = String::from_str("unknown hash job ");
                m.append(decimal_string(*id as u64).as_str());
                m
            },
            DiffError::Unreadable { side, reason } => {
                let mut m = String::from_str(side.name());
                m.append(" folder could not be listed: ");
                m.append(reason.as_str());
                m
            },
        }
    }
}

// ---------------------------------------------------------------------------------
// Paths

/// The position of the last `/` in a path, or -1 when there is none.
pub open spec fn last_slash(p: Seq<char>) -> int
    decreases p.len(),
{
    if p.len() == 0 {
        -1
    } else if p.last() == '/' {
        p.len() - 1
    } else {
        last_slash(p.drop_last())
    }
}

/// The folder a path is in: everything before its last `/`, or empty at the top level.
pub open spec fn parent_of(p: Seq<char>) -> Seq<char> {
    if last_slash(p) < 0 {
        Seq::empty()
    } else {
        p.subrange(0, last_slash(p))
    }
}

/// The last segment of a path: everything after its last `/`.
pub open spec fn name_of(p: Seq<char>) -> Seq<char> {
    p.subrange(last_slash(p) + 1, p.len() as int)
}

pub proof fn lemma_last_slash(p: Seq<char>)
    ensures
        -1 <= last_slash(p) < p.len(),
        last_slash(p) >= 0 ==> p[last_slash(p)] == '/',
        forall|i: int| last_slash(p) < i < p.len() ==> p[i] != '/',
    decreases p.len(),
{
    if p.len() > 0 && p.last() != '/' {
        lemma_last_slash(p.drop_last());
        assert forall|i: int| last_slash(p) < i < p.len() implies p[i] != '/' by {
            if i < p.len() - 1 {
                assert(p[i] == p.drop_last()[i]);
            }
        }
    }
}

/// The position of the last `/` in a path, if any.
fn find_last_slash(p: &[char]) -> (res: Option<usize>)
    ensures
        match res {
            Some(i) => i as int == last_slash(p@),
            None => last_slash(p@) == -1,
        },
{
    let mut i = p.len();
    proof {
        assert(p@.subrange(0, i as int) =~= p@);
    }
    while i > 0
        invariant
            i <= p@.len(),
            last_slash(p@) == last_slash(p@.subrange(0, i as int)),
        decreases i,
    {
        proof {
            assert(p@.subrange(0, i as int).drop_last() =~= p@.subrange(0, i - 1));
        }
        if p[i - 1] == '/' {
            return Some(i - 1);
        }
        i = i - 1;
    }
    None
}

/// The first segment of a path: everything before its first `/`.
pub open spec fn first_slash(p: Seq<char>) -> int
    decreases p.len(),
{
    if p.len() == 0 {
        -1
    } else if p[0] == '/' {
        0
    } else if first_slash(p.drop_first()) < 0 {
        -1
    } else {
        first_slash(p.drop_first()) + 1
    }
}

pub open spec fn relative_reason() -> Seq<char> {
    "path must be relative, with no empty segments"@
}

pub open spec fn dots_reason() -> Seq<char> {
    "path must not contain . or .. segments"@
}

/// Why the segments of a path, from its start, are not a valid relative path.
pub open spec fn segments_reason(p: Seq<char>) -> Option<Seq<char>>
    decreases p.len(),
{
    let k = first_slash(p);
    let segment = if k < 0 { p } else { p.subrange(0, k) };
    if segment.len() == 0 {
        Some(relative_reason())
    } else if segment == seq!['.'] || segment == seq!['.', '.'] {
        Some(dots_reason())
    } else if k < 0 || k >= p.len() {
        None
    } else {
        segments_reason(p.subrange(k + 1, p.len() as int))
    }
}

/// Why a path is not a valid listing path, if it is not.
pub open spec fn path_reason(p: Seq<char>) -> Option<Seq<char>> {
    if p.len() == 0 {
        Some("path is empty"@)
    } else {
        segments_reason(p)
    }
}


pub proof fn lemma_first_slash(p: Seq<char>)
    ensures
        -1 <= first_slash(p) < p.len(),
        first_slash(p) >= 0 ==> p[first_slash(p)] == '/',
        forall|i: int| 0 <= i < p.len() && (first_slash(p) < 0 || i < first_slash(p)) ==> p[i] != '/',
    decreases p.len(),
{
    if p.len() > 0 && p[0] != '/' {
        lemma_first_slash(p.drop_first());
        assert forall|i: int| 0 <= i < p.len() && (first_slash(p) < 0 || i < first_slash(p)) implies p[i] != '/' by {
            if i > 0 {
                assert(p[i] == p.drop_first()[i - 1]);
            }
        }
    }
}

/// Checks that a path is relative, `/`-separated, with no empty, `.` or `..` segments.
fn path_problem(p: &[char]) -> (res: Option<&'static str>)
    ensures
        match res {
            Some(reason) => path_reason(p@) == Some(reason@),
            None => path_reason(p@) is None,
        },
{
    if p.len() == 0 {
        return Some("path is empty");
    }
    let mut start: usize = 0;
    proof {
        assert(p@.subrange(0, p@.len() as int) =~= p@);
    }
    loop
        invariant
            start <= p@.len(),
            p@.len() > 0,
            segments_reason(p@) == segments_reason(p@.subrange(start as int, p@.len() as int)),
        decreases p@.len() - start,
    {
        let ghost rest = p@.subrange(start as int, p@.len() as int);
        let mut end = start;
        while end < p.len() && p[end] != '/'
            invariant
                start <= end <= p@.len(),
                forall|k: int| start <= k < end ==> p@[k] != '/',
            decreases p@.len() - end,
        {
            end = end + 1;
        }
        proof {
            lemma_first_slash(rest);
            if end < p.len() {
                assert(rest[end - start] == '/');
                assert(first_slash(rest) == end - start);
            } else {
                assert forall|i: int| 0 <= i < rest.len() implies rest[i] != '/' by {
                    assert(rest[i] == p@[start + i]);
                }
                assert(first_slash(rest) == -1);
                assert(rest =~= rest.subrange(0, rest.len() as int));
            }
            assert(rest.subrange(0, end - start) =~= p@.subrange(start as int, end as int));
        }
        let len = end - start;
        if len == 0 {
            return Some("path must be relative, with no empty segments");
        }
        if (len == 1 && p[start] == '.') || (len == 2 && p[start] == '.' && p[start + 1] == '.') {
            proof {
                if len == 1 {
                    assert(p@.subrange(start as int, end as int) =~= seq!['.']);
                } else {
                    assert(p@.subrange(start as int, end as int) =~= seq!['.', '.']);
                }
            }
            return Some("path must not contain . or .. segments");
        }
        proof {
            let seg = p@.subrange(start as int, end as int);
            if seg == seq!['.'] {
                assert(seg[0] == '.');
            }
            if seg == seq!['.', '.'] {
                assert(seg[0] == '.' && seg[1] == '.');
            }
        }
        if end == p.len() {
            return None;
        }
        proof {
            assert(rest.subrange(end - start + 1, rest.len() as int) =~= p@.subrange(end + 1, p@.len() as int));
        }
        start = end + 1;
    }
}

/// Checks that a path is relative, `/`-separated, with no empty, `.` or `..` segments,
/// or says why it is not.
pub fn validate_path(path: &str) -> (res: Result<(), &'static str>)
    ensures
        match res {
            Ok(()) => path_reason(path@) is None,
            Err(reason) => path_reason(path@) == Some(reason@),
        },
{
    let chars = chars_of(path);
    match path_problem(chars.as_slice()) {
        Some(reason) => Err(reason),
        None => Ok(()),
    }
}

// ---------------------------------------------------------------------------------
// Listings

pub open spec fn mtime_reason() -> Seq<char> {
    "mtime_ns must be an integer"@
}

pub open spec fn duplicate_reason() -> Seq<char> {
    "listed more than once"@
}

pub open spec fn unlisted_reason() -> Seq<char> {
    "has entries inside it but is not listed"@
}

pub open spec fn not_folder_reason() -> Seq<char> {
    "has entries inside it but is not a folder"@
}

/// Some entry of the listing has this path.
#[verifier::opaque]
pub open spec fn listed(listing: Seq<FsEntry>, p: Seq<char>) -> bool {
    exists|i: int| 0 <= i < listing.len() && (#[trigger] listing[i]).path@ == p
}

/// The entry of the listing with this path.
#[verifier::opaque]
pub open spec fn entry_at(listing: Seq<FsEntry>, p: Seq<char>) -> FsEntry {
    listing[choose|i: int| 0 <= i < listing.len() && (#[trigger] listing[i]).path@ == p]
}

/// Why entry `i` of a listing is rejected on its own or for repeating an earlier path.
pub open spec fn entry_reason(listing: Seq<FsEntry>, i: int) -> Option<Seq<char>> {
    let e = listing[i];
    if path_reason(e.path@) is Some {
        path_reason(e.path@)
    } else if e.error is None && parsed_i128(e.mtime_ns@) is None {
        Some(mtime_reason())
    } else if exists|j: int| 0 <= j < i && (#[trigger] listing[j]).path@ == e.path@ {
        Some(duplicate_reason())
    } else {
        None
    }
}

/// Why the folder holding entry `i` is rejected: it must be listed, as a folder.
pub open spec fn parent_reason(listing: Seq<FsEntry>, i: int) -> Option<Seq<char>> {
    let q = parent_of(listing[i].path@);
    if q.len() == 0 {
        None
    } else if !listed(listing, q) {
        Some(unlisted_reason())
    } else if entry_at(listing, q).kind != EntryKind::Dir {
        Some(not_folder_reason())
    } else {
        None
    }
}

/// The first entry, from `from` on, rejected on its own: its path and the reason.
pub open spec fn first_entry_problem(listing: Seq<FsEntry>, from: int) -> Option<(Seq<char>, Seq<char>)>
    decreases listing.len() - from,
{
    if from < 0 || from >= listing.len() {
        None
    } else if entry_reason(listing, from) is Some {
        Some((listing[from].path@, entry_reason(listing, from)->0))
    } else {
        first_entry_problem(listing, from + 1)
    }
}

/// The first entry, from `from` on, whose folder is rejected: the folder's path and
/// the reason.
pub open spec fn first_parent_problem(listing: Seq<FsEntry>, from: int) -> Option<(Seq<char>, Seq<char>)>
    decreases listing.len() - from,
{
    if from < 0 || from >= listing.len() {
        None
    } else if parent_reason(listing, from) is Some {
        Some((parent_of(listing[from].path@), parent_reason(listing, from)->0))
    } else {
        first_parent_problem(listing, from + 1)
    }
}

/// Why a listing is rejected, with the path the problem is about: the first entry
/// that is malformed or repeated, else the first entry whose folder is not a listed
/// folder.
pub open spec fn listing_problem(listing: Seq<FsEntry>) -> Option<(Seq<char>, Seq<char>)> {
    match first_entry_problem(listing, 0) {
        Some(problem) => Some(problem),
        None => first_parent_problem(listing, 0),
    }
}

// ---------------------------------------------------------------------------------
// The comparison

/// File type bits of a POSIX `st_mode`.
pub const S_IFMT: u32 = 0o170_000;

/// Permission bits of a POSIX `st_mode`, including setuid, setgid and sticky.
pub const PERMISSION_BITS: u32 = 0o7_777;

pub open spec fn opt_str(o: Option<String>) -> Option<Seq<char>> {
    match o {
        Some(s) => Some(s@),
        None => None,
    }
}

/// What was recorded for a hash job: nothing yet, a digest, or why it failed.
pub open spec fn outcome_view(o: Option<Result<String, String>>) -> Option<Result<Seq<char>, Seq<char>>> {
    match o {
        Some(Ok(s)) => Some(Ok(s@)),
        Some(Err(s)) => Some(Err(s@)),
        None => None,
    }
}

/// Per-side problems joined into one message, or none when there are none.
pub open spec fn sided(left: Option<Seq<char>>, right: Option<Seq<char>>) -> Option<Seq<char>> {
    match (left, right) {
        (Some(l), Some(r)) => Some("left: "@ + l + "; right: "@ + r),
        (Some(l), None) => Some("left: "@ + l),
        (None, Some(r)) => Some("right: "@ + r),
        (None, None) => None,
    }
}

pub open spec fn unhashed_reason() -> Seq<char> {
    "content was not hashed"@
}

/// Why a job has no usable digest, if it has none.
pub open spec fn outcome_problem(o: Option<Result<Seq<char>, Seq<char>>>) -> Option<Seq<char>> {
    match o {
        None => Some(unhashed_reason()),
        Some(Err(message)) => Some(message),
        Some(Ok(_)) => None,
    }
}

/// `x` if `b`, else nothing.
pub open spec fn when<T>(b: bool, x: T) -> Seq<T> {
    if b { seq![x] } else { Seq::empty() }
}

/// Both sides' files need hashing: present on both sides, readable, files, and of
/// equal size.
pub open spec fn needs_hash(l: FsEntry, r: FsEntry) -> bool {
    &&& l.error is None
    &&& r.error is None
    &&& l.kind == EntryKind::File
    &&& r.kind == EntryKind::File
    &&& l.size == r.size
}

/// Two listings, the hash jobs handed out for them and what was recorded for each job.
pub struct Comparison {
    pub left: Seq<FsEntry>,
    pub right: Seq<FsEntry>,
    pub jobs: Seq<HashJob>,
    pub outcomes: Seq<Option<Result<Seq<char>, Seq<char>>>>,
}

impl Comparison {
    /// The path is listed on either side.
    pub open spec fn in_union(self, p: Seq<char>) -> bool {
        listed(self.left, p) || listed(self.right, p)
    }

    /// The left-side job for a path, if one was handed out; the right side's is next.
    pub open spec fn job_of(self, p: Seq<char>) -> Option<int> {
        if exists|i: int| 0 <= i < self.jobs.len() && i % 2 == 0 && (#[trigger] self.jobs[i]).path@ == p {
            Some(choose|i: int| 0 <= i < self.jobs.len() && i % 2 == 0 && (#[trigger] self.jobs[i]).path@ == p)
        } else {
            None
        }
    }

    /// Whether the content of a file present on both sides differs, or why that is
    /// not known.
    pub open spec fn content(self, p: Seq<char>, l: FsEntry, r: FsEntry) -> Result<bool, Seq<char>> {
        if l.size != r.size {
            Ok(true)
        } else {
            match self.job_of(p) {
                None => Err(unhashed_reason()),
                Some(i) => {
                    let lo = self.outcomes[i];
                    let ro = self.outcomes[i + 1];
                    match (lo, ro) {
                        (Some(Ok(a)), Some(Ok(b))) => Ok(a != b),
                        _ => Err(
                            match sided(outcome_problem(lo), outcome_problem(ro)) {
                                Some(m) => m,
                                None => Seq::empty(),
                            },
                        ),
                    }
                },
            }
        }
    }

    /// Status, reasons and error of a path present on both sides.
    pub open spec fn compare(self, p: Seq<char>, l: FsEntry, r: FsEntry) -> (ChangeStatus, Seq<ChangeReason>, Option<Seq<char>>) {
        if l.error is Some || r.error is Some {
            (ChangeStatus::Unknown, Seq::empty(), sided(opt_str(l.error), opt_str(r.error)))
        } else {
            let kind_changed = l.kind != r.kind || (l.mode & S_IFMT) != (r.mode & S_IFMT);
            let content = self.content(p, l, r);
            let reasons = if kind_changed {
                seq![ChangeReason::Kind]
            } else {
                when(l.kind == EntryKind::File && content == Ok::<bool, Seq<char>>(true), ChangeReason::Content)
                    + when((l.kind == EntryKind::File || l.kind == EntryKind::Other) && l.size != r.size, ChangeReason::Size)
                    + when((l.mode & PERMISSION_BITS) != (r.mode & PERMISSION_BITS), ChangeReason::Permissions)
                    + when(l.uid != r.uid || l.gid != r.gid, ChangeReason::Owner)
                    + when(parsed_i128(l.mtime_ns@) != parsed_i128(r.mtime_ns@), ChangeReason::ModifiedTime)
                    + when(opt_str(l.link_target) != opt_str(r.link_target), ChangeReason::LinkTarget)
            };
            let error = if !kind_changed && l.kind == EntryKind::File && content is Err {
                Some(content->Err_0)
            } else {
                None
            };
            let status = if reasons.len() > 0 {
                ChangeStatus::Modified
            } else if error is Some {
                ChangeStatus::Unknown
            } else {
                ChangeStatus::Unchanged
            };
            (status, reasons, error)
        }
    }

    /// Status, reasons and error of a listed path.
    pub open spec fn outcome(self, p: Seq<char>) -> (ChangeStatus, Seq<ChangeReason>, Option<Seq<char>>) {
        if listed(self.left, p) && !listed(self.right, p) {
            (ChangeStatus::Deleted, Seq::empty(), opt_str(entry_at(self.left, p).error))
        } else if !listed(self.left, p) && listed(self.right, p) {
            (ChangeStatus::Added, Seq::empty(), opt_str(entry_at(self.right, p).error))
        } else {
            self.compare(p, entry_at(self.left, p), entry_at(self.right, p))
        }
    }

    pub open spec fn status(self, p: Seq<char>) -> ChangeStatus {
        self.outcome(p).0
    }

    /// The entry's kind on one side, if it is listed there.
    pub open spec fn kind_in(listing: Seq<FsEntry>, p: Seq<char>) -> Option<EntryKind> {
        if listed(listing, p) {
            Some(entry_at(listing, p).kind)
        } else {
            None
        }
    }

    /// Siblings are listed folders first, then by lowercased name, then by name.
    pub open spec fn node_before(a: TreeNode, b: TreeNode) -> bool {
        key_before(
            is_folder_spec(a.left_kind, a.right_kind),
            lowercase(a.name@),
            a.name@,
            is_folder_spec(b.left_kind, b.right_kind),
            lowercase(b.name@),
            b.name@,
        )
    }

    /// The nodes are exactly the listed paths directly inside `parent`, once each, in
    /// sibling order.
    pub open spec fn children_shape(self, nodes: Seq<TreeNode>, parent: Seq<char>) -> bool {
        &&& forall|i: int| 0 <= i < nodes.len() ==> parent_of((#[trigger] nodes[i]).path@) == parent
        &&& forall|q: Seq<char>| self.in_union(q) && parent_of(q) == parent ==> exists|i: int| 0 <= i < nodes.len() && (#[trigger] nodes[i]).path@ == q
        &&& forall|i: int, j: int| 0 <= i < j < nodes.len() ==> Self::node_before(#[trigger] nodes[i], #[trigger] nodes[j])
    }

    /// A node and everything below it describe the comparison of its path.
    pub open spec fn node_ok(self, node: TreeNode) -> bool
        decreases node,
    {
        let p = node.path@;
        &&& self.in_union(p)
        &&& node.name@ == name_of(p)
        &&& node.left_kind == Self::kind_in(self.left, p)
        &&& node.right_kind == Self::kind_in(self.right, p)
        &&& node.status == self.outcome(p).0
        &&& node.reasons@ == self.outcome(p).1
        &&& opt_str(node.error) == self.outcome(p).2
        &&& node.has_changes == (node.status != ChangeStatus::Unchanged || exists|i: int| 0 <= i < node.children@.len() && (#[trigger] node.children@[i]).has_changes)
        &&& self.children_shape(node.children@, p)
        &&& forall|i: int| 0 <= i < node.children@.len() ==> self.node_ok(#[trigger] node.children@[i])
    }

    /// How many of the paths have the status.
    pub open spec fn count(self, paths: Seq<Seq<char>>, status: ChangeStatus) -> int
        decreases paths.len(),
    {
        if paths.len() == 0 {
            0
        } else {
            self.count(paths.drop_last(), status) + if self.status(paths.last()) == status { 1int } else { 0int }
        }
    }

    /// Every listed path once: the left listing's, then the right-only ones.
    pub open spec fn union_paths(self) -> Seq<Seq<char>> {
        paths_of(self.left) + unlisted_paths(self.left, self.right)
    }

    pub open spec fn jobs_ok(self) -> bool {
        jobs_ok(self.left, self.right, self.jobs)
    }

    /// Both listings are valid: see [`listing_problem`].
    pub open spec fn valid(self) -> bool {
        listing_problem(self.left) is None && listing_problem(self.right) is None
    }

    /// The tally counts every listed path once, by its status.
    pub open spec fn stats_match(self, stats: FolderStats) -> bool {
        forall|s: ChangeStatus| #[trigger] stats.of(s) == self.count(self.union_paths(), s)
    }
}

/// The paths of a listing, in order.
pub open spec fn paths_of(listing: Seq<FsEntry>) -> Seq<Seq<char>> {
    listing.map_values(|e: FsEntry| e.path@)
}

/// The paths of `other`, in order, that `listing` does not list.
pub open spec fn unlisted_paths(listing: Seq<FsEntry>, other: Seq<FsEntry>) -> Seq<Seq<char>>
    decreases other.len(),
{
    if other.len() == 0 {
        Seq::empty()
    } else {
        let rest = unlisted_paths(listing, other.drop_last());
        if listed(listing, other.last().path@) {
            rest
        } else {
            rest.push(other.last().path@)
        }
    }
}

/// Jobs are numbered from 0, left and right jobs alternating.
#[verifier::opaque]
pub open spec fn jobs_numbered(jobs: Seq<HashJob>) -> bool {
    &&& jobs.len() % 2 == 0
    &&& forall|i: int| 0 <= i < jobs.len() ==> (#[trigger] jobs[i]).id == i
    &&& forall|i: int| 0 <= i < jobs.len() ==> (#[trigger] jobs[i]).side == if i % 2 == 0 { Side::Left } else { Side::Right }
}

/// Each pair of jobs is for one path that needs hashing, with its size.
#[verifier::opaque]
pub open spec fn jobs_needed(left: Seq<FsEntry>, right: Seq<FsEntry>, jobs: Seq<HashJob>) -> bool {
    forall|i: int| 0 <= i < jobs.len() && i % 2 == 0 ==> {
        let p = (#[trigger] jobs[i]).path@;
        &&& jobs[i + 1].path@ == p
        &&& listed(left, p)
        &&& listed(right, p)
        &&& needs_hash(entry_at(left, p), entry_at(right, p))
        &&& jobs[i].size == entry_at(left, p).size
        &&& jobs[i + 1].size == entry_at(left, p).size
    }
}

/// Job pairs come in increasing path order.
#[verifier::opaque]
pub open spec fn jobs_sorted(jobs: Seq<HashJob>) -> bool {
    forall|i: int, j: int| 0 <= i < j < jobs.len() && i % 2 == 0 && j % 2 == 0 ==> lex_lt((#[trigger] jobs[i]).path@, (#[trigger] jobs[j]).path@)
}

/// Every path that needs hashing has its jobs.
#[verifier::opaque]
pub open spec fn jobs_complete(left: Seq<FsEntry>, right: Seq<FsEntry>, jobs: Seq<HashJob>) -> bool {
    forall|p: Seq<char>| listed(left, p) && listed(right, p) && needs_hash(entry_at(left, p), entry_at(right, p))
        ==> exists|i: int| 0 <= i < jobs.len() && i % 2 == 0 && (#[trigger] jobs[i]).path@ == p
}

/// The hash jobs: for every path that needs hashing, in increasing path order, a
/// left job and then a right job, numbered from 0.
pub open spec fn jobs_ok(left: Seq<FsEntry>, right: Seq<FsEntry>, jobs: Seq<HashJob>) -> bool {
    &&& jobs_numbered(jobs)
    &&& jobs_needed(left, right, jobs)
    &&& jobs_sorted(jobs)
    &&& jobs_complete(left, right, jobs)
}

/// Sibling order: folders first, then by lowercased name, then by name.
pub open spec fn key_before(fa: bool, la: Seq<char>, na: Seq<char>, fb: bool, lb: Seq<char>, nb: Seq<char>) -> bool {
    (fa && !fb) || (fa == fb && (lex_lt(la, lb) || (la == lb && lex_lt(na, nb))))
}

// ---------------------------------------------------------------------------------
// One side's listing, indexed

/// A path with the position of its entry in the listing: sorting by these puts equal
/// paths together, earliest entry first.
struct PathAt {
    path: Vec<char>,
    index: usize,
}

impl SortKey for PathAt {
    closed spec fn before(self, other: Self) -> bool {
        lex_lt(self.path@, other.path@) || (self.path@ == other.path@ && self.index < other.index)
    }

    proof fn lemma_transitive(a: Self, b: Self, c: Self) {
        if lex_lt(a.path@, b.path@) && lex_lt(b.path@, c.path@) {
            crate::order::lemma_lex_transitive(a.path@, b.path@, c.path@);
        }
    }

    proof fn lemma_irreflexive(a: Self) {
        crate::order::lemma_lex_irreflexive(a.path@);
    }

    fn compare(&self, other: &Self) -> (res: Order) {
        proof {
            crate::order::lemma_lex_asymmetric(self.path@, other.path@);
            crate::order::lemma_lex_irreflexive(self.path@);
        }
        match compare_chars(self.path.as_slice(), other.path.as_slice()) {
            Order::Equal => if self.index < other.index {
                Order::Less
            } else if self.index == other.index {
                Order::Equal
            } else {
                Order::Greater
            },
            c => c,
        }
    }
}

/// One side's listing, with its paths sorted and every folder's entries found.
struct Tree {
    /// The listing as given.
    entries: Vec<FsEntry>,
    /// The characters of each entry's path, in listing order.
    keys: Vec<Vec<char>>,
    /// Entry indices in increasing path order.
    order: Vec<usize>,
    /// The paths in increasing order: `sorted[p]` is the path of entry `order[p]`.
    sorted: Vec<Vec<char>>,
    /// For each entry, the entries directly inside it, in listing order.
    kids: Vec<Vec<usize>>,
    /// The entries at the top level, in listing order.
    roots: Vec<usize>,
}

/// `list` holds, in increasing order, exactly the entries before `upto` whose folder
/// is `parent`.
pub open spec fn lists_children(list: Seq<usize>, listing: Seq<FsEntry>, parent: Seq<char>, upto: int) -> bool {
    &&& forall|k: int| 0 <= k < list.len() ==> (#[trigger] list[k]) < upto && upto <= listing.len() && parent_of(listing[list[k] as int].path@) == parent
    &&& forall|j: int| 0 <= j < upto && parent_of(#[trigger] listing[j].path@) == parent ==> list.contains(j as usize)
    &&& forall|k1: int, k2: int| 0 <= k1 < k2 < list.len() ==> (#[trigger] list[k1]) < (#[trigger] list[k2])
}

/// No two entries of the listing share a path.
pub open spec fn distinct_paths(listing: Seq<FsEntry>) -> bool {
    forall|i: int, j: int| 0 <= i < listing.len() && 0 <= j < listing.len() && i != j ==> (#[trigger] listing[i]).path@ != (#[trigger] listing[j]).path@
}

pub proof fn lemma_entry_at(listing: Seq<FsEntry>, i: int)
    requires
        distinct_paths(listing),
        0 <= i < listing.len(),
    ensures
        listed(listing, listing[i].path@),
        entry_at(listing, listing[i].path@) == listing[i],
{
    reveal(listed);
    reveal(entry_at);
    let p = listing[i].path@;
    assert(listing[i].path@ == p);
    let j = choose|j: int| 0 <= j < listing.len() && (#[trigger] listing[j]).path@ == p;
    if j != i {
        assert(listing[j].path@ != listing[i].path@);
    }
}

/// A listed path is some entry's path.
pub proof fn lemma_listed_witness(listing: Seq<FsEntry>, p: Seq<char>) -> (i: int)
    requires
        listed(listing, p),
    ensures
        0 <= i < listing.len(),
        listing[i].path@ == p,
{
    reveal(listed);
    choose|i: int| 0 <= i < listing.len() && (#[trigger] listing[i]).path@ == p
}

impl Tree {
    /// The sorted index agrees with the listing.
    spec fn index_ok(self) -> bool {
        let n = self.entries@.len();
        &&& self.keys@.len() == n
        &&& self.order@.len() == n
        &&& self.sorted@.len() == n
        &&& self.kids@.len() == n
        &&& n <= usize::MAX
        &&& forall|i: int| 0 <= i < n ==> (#[trigger] self.keys@[i])@ == self.entries@[i].path@
        &&& forall|p: int| 0 <= p < n ==> (#[trigger] self.order@[p]) < n
        &&& forall|x: usize| self.order@.contains(x) <==> x < n
        &&& forall|p: int| 0 <= p < n ==> (#[trigger] self.sorted@[p])@ == self.entries@[self.order@[p] as int].path@
        &&& forall|p: int, q: int| 0 <= p < q < n ==> lex_lt((#[trigger] self.sorted@[p])@, (#[trigger] self.sorted@[q])@)
        &&& distinct_paths(self.entries@)
    }

    /// The listing is valid and every folder's entries are found.
    #[verifier::opaque]
    spec fn folders_ok(self) -> bool {
        let n = self.entries@.len();
        &&& listing_problem(self.entries@) is None
        &&& forall|i: int| 0 <= i < n ==> entry_reason(self.entries@, i) is None
        &&& forall|i: int| 0 <= i < n ==> parent_reason(self.entries@, i) is None
        &&& forall|i: int| 0 <= i < n ==> lists_children((#[trigger] self.kids@[i])@, self.entries@, self.entries@[i].path@, n as int)
        &&& lists_children(self.roots@, self.entries@, Seq::empty(), n as int)
    }

    spec fn wf(self) -> bool {
        self.index_ok() && self.folders_ok()
    }

    proof fn lemma_valid(self)
        requires
            self.wf(),
        ensures
            listing_problem(self.entries@) is None,
    {
        reveal(Tree::folders_ok);
    }
}

/// In an order sorted by path and then position, an entry repeats an earlier path
/// exactly when the entry before it in that order has the same path.
proof fn lemma_repeat_is_adjacent(at: Seq<PathAt>, order: Seq<usize>, p: int)
    requires
        sorted_by_keys(at, order),
        order.len() == at.len(),
        forall|x: usize| order.contains(x) <==> x < at.len(),
        forall|k: int| 0 <= k < at.len() ==> (#[trigger] at[k]).index == k,
        0 <= p < order.len(),
    ensures
        (p >= 1 && at[order[p - 1] as int].path@ == at[order[p] as int].path@)
            <==> exists|j: int| 0 <= j < order[p] && (#[trigger] at[j]).path@ == at[order[p] as int].path@,
{
    let i = order[p] as int;
    if p >= 1 && at[order[p - 1] as int].path@ == at[i].path@ {
        let m = order[p - 1] as int;
        assert(at[m].before(at[i]));
        crate::order::lemma_lex_irreflexive(at[i].path@);
        assert(at[m].index < at[i].index);
        assert(0 <= m < i && at[m].path@ == at[i].path@);
    }
    if exists|j: int| 0 <= j < i && (#[trigger] at[j]).path@ == at[i].path@ {
        let j = choose|j: int| 0 <= j < i && (#[trigger] at[j]).path@ == at[i].path@;
        assert(order.contains(j as usize));
        let q = choose|q: int| 0 <= q < order.len() && order[q] == j as usize;
        assert(at[j].before(at[i]));
        if q > p {
            assert(at[i].before(at[j]));
            PathAt::lemma_transitive(at[i], at[j], at[i]);
            PathAt::lemma_irreflexive(at[i]);
        }
        assert(q != p);
        assert(q < p);
        let m = order[p - 1] as int;
        if q < p - 1 {
            assert(at[j].before(at[m]));
            assert(at[m].before(at[i]));
            if lex_lt(at[j].path@, at[m].path@) {
                if lex_lt(at[m].path@, at[i].path@) {
                    crate::order::lemma_lex_transitive(at[j].path@, at[m].path@, at[i].path@);
                }
                crate::order::lemma_lex_irreflexive(at[j].path@);
            }
        }
    }
}

/// Marks each entry whose path an earlier entry already has.
fn repeated_paths(keys: &Vec<Vec<char>>) -> (res: Vec<bool>)
    ensures
        res@.len() == keys@.len(),
        forall|i: int| 0 <= i < keys@.len() ==> (#[trigger] res@[i] <==> exists|j: int| 0 <= j < i && (#[trigger] keys@[j])@ == keys@[i]@),
{
    let n = keys.len();
    let mut at: Vec<PathAt> = Vec::new();
    for i in 0..n
        invariant
            n == keys@.len(),
            at@.len() == i,
            forall|k: int| 0 <= k < i ==> (#[trigger] at@[k]).index == k && at@[k].path@ == keys@[k]@,
    {
        let path = keys[i].clone();
        proof {
            assert(path@ =~= keys@[i as int]@);
        }
        at.push(PathAt { path, index: i });
    }
    proof {
        assert forall|i: int, j: int| 0 <= i < at@.len() && 0 <= j < at@.len() && i != j implies #[trigger] at@[i].before(at@[j]) || #[trigger] at@[j].before(at@[i]) by {
            if at@[i].path@ != at@[j].path@ {
                crate::order::lemma_lex_total(at@[i].path@, at@[j].path@);
            }
        }
    }
    let order = sorted_order(&at);
    proof {
        assert forall|q1: int, q2: int| 0 <= q1 < n && 0 <= q2 < n && q1 != q2 implies order@[q1] != order@[q2] by {
            if order@[q1] == order@[q2] {
                if q1 < q2 {
                    assert(at@[order@[q1] as int].before(at@[order@[q2] as int]));
                } else {
                    assert(at@[order@[q2] as int].before(at@[order@[q1] as int]));
                }
                PathAt::lemma_irreflexive(at@[order@[q1] as int]);
            }
        }
    }
    let mut res: Vec<bool> = vec![false; n];
    let mut p: usize = 1;
    while p < n
        invariant
            n == keys@.len(),
            n == at@.len(),
            n == order@.len(),
            res@.len() == n,
            1 <= p <= n || n == 0,
            forall|k: int| 0 <= k < n ==> (#[trigger] at@[k]).index == k && at@[k].path@ == keys@[k]@,
            sorted_by_keys(at@, order@),
            forall|x: usize| order@.contains(x) <==> x < at@.len(),
            forall|q1: int, q2: int| 0 <= q1 < n && 0 <= q2 < n && q1 != q2 ==> order@[q1] != order@[q2],
            forall|q: int| 0 <= q < n ==> res@[#[trigger] order@[q] as int] == (1 <= q < p && at@[order@[q - 1] as int].path@ == at@[order@[q] as int].path@),
        decreases n - p,
    {
        let c = compare_chars(at[order[p - 1]].path.as_slice(), at[order[p]].path.as_slice());
        if c == Order::Equal {
            let ghost old_res = res@;
            res.set(order[p], true);
            proof {
                assert forall|q: int| 0 <= q < n implies res@[#[trigger] order@[q] as int] == (1 <= q < p + 1 && at@[order@[q - 1] as int].path@ == at@[order@[q] as int].path@) by {
                    if q != p {
                        assert(order@[q] != order@[p as int]);
                    }
                }
            }
        }
        p = p + 1;
    }
    proof {
        assert forall|i: int| 0 <= i < n implies (#[trigger] res@[i] <==> exists|j: int| 0 <= j < i && (#[trigger] keys@[j])@ == keys@[i]@) by {
            assert(order@.contains(i as usize));
            let q = choose|q: int| 0 <= q < order@.len() && order@[q] == i as usize;
            lemma_repeat_is_adjacent(at@, order@, q);
            if exists|j: int| 0 <= j < i && (#[trigger] keys@[j])@ == keys@[i]@ {
                let j = choose|j: int| 0 <= j < i && (#[trigger] keys@[j])@ == keys@[i]@;
                assert(at@[j].path@ == at@[i].path@);
            }
            if exists|j: int| 0 <= j < i && (#[trigger] at@[j]).path@ == at@[i].path@ {
                let j = choose|j: int| 0 <= j < i && (#[trigger] at@[j]).path@ == at@[i].path@;
                assert(keys@[j]@ == keys@[i]@);
            }
        }
    }
    res
}

impl SortKey for Vec<char> {
    open spec fn before(self, other: Self) -> bool {
        lex_lt(self@, other@)
    }

    proof fn lemma_transitive(a: Self, b: Self, c: Self) {
        crate::order::lemma_lex_transitive(a@, b@, c@);
    }

    proof fn lemma_irreflexive(a: Self) {
        crate::order::lemma_lex_irreflexive(a@);
    }

    fn compare(&self, other: &Self) -> (res: Order) {
        proof {
            crate::order::lemma_lex_asymmetric(self@, other@);
        }
        compare_chars(self.as_slice(), other.as_slice())
    }
}

/// The error for a rejected listing entry.
pub open spec fn is_invalid_entry(e: DiffError, side: Side, path: Seq<char>, reason: Seq<char>) -> bool {
    e matches DiffError::InvalidEntry { side: s, path: p, reason: r } && s == side && p@ == path && r@ == reason
}

proof fn lemma_push_child(list: Seq<usize>, listing: Seq<FsEntry>, parent: Seq<char>, i: int)
    requires
        lists_children(list, listing, parent, i),
        0 <= i < listing.len(),
        i < usize::MAX,
        parent_of(listing[i].path@) == parent,
    ensures
        lists_children(list.push(i as usize), listing, parent, i + 1),
{
    crate::order::lemma_push_contains(list, i as usize);
    let l2 = list.push(i as usize);
    assert forall|k: int| 0 <= k < l2.len() implies (#[trigger] l2[k]) < i + 1 && i + 1 <= listing.len() && parent_of(listing[l2[k] as int].path@) == parent by {
        if k < list.len() {
            assert(l2[k] == list[k]);
        }
    }
    assert forall|k1: int, k2: int| 0 <= k1 < k2 < l2.len() implies (#[trigger] l2[k1]) < (#[trigger] l2[k2]) by {
        assert(l2[k1] == list[k1]);
        if k2 < list.len() {
            assert(l2[k2] == list[k2]);
        }
    }
    assert forall|j: int| 0 <= j < i + 1 && parent_of(#[trigger] listing[j].path@) == parent implies l2.contains(j as usize) by {
        if j < i {
            assert(list.contains(j as usize));
        }
    }
}

proof fn lemma_skip_child(list: Seq<usize>, listing: Seq<FsEntry>, parent: Seq<char>, i: int)
    requires
        lists_children(list, listing, parent, i),
        0 <= i < listing.len(),
        parent_of(listing[i].path@) != parent,
    ensures
        lists_children(list, listing, parent, i + 1),
{
}

impl Tree {
    /// Indexes one side's listing, or rejects it: see [`listing_problem`].
    fn new(side: Side, listing: Vec<FsEntry>) -> (res: Result<Tree, DiffError>)
        ensures
            match res {
                Ok(t) => t.wf() && t.entries@ == listing@,
                Err(e) => listing_problem(listing@) matches Some(pr) && is_invalid_entry(e, side, pr.0, pr.1),
            },
    {
        let n = listing.len();
        let mut keys: Vec<Vec<char>> = Vec::new();
        for i in 0..n
            invariant
                n == listing@.len(),
                keys@.len() == i,
                forall|k: int| 0 <= k < i ==> (#[trigger] keys@[k])@ == listing@[k].path@,
        {
            keys.push(chars_of(listing[i].path.as_str()));
        }
        let repeated = repeated_paths(&keys);
        for i in 0..n
            invariant
                n == listing@.len(),
                keys@.len() == n,
                repeated@.len() == n,
                forall|k: int| 0 <= k < n ==> (#[trigger] keys@[k])@ == listing@[k].path@,
                forall|k: int| 0 <= k < n ==> (#[trigger] repeated@[k] <==> exists|j: int| 0 <= j < k && (#[trigger] keys@[j])@ == keys@[k]@),
                forall|k: int| 0 <= k < i ==> entry_reason(listing@, k) is None,
                first_entry_problem(listing@, 0) == first_entry_problem(listing@, i as int),
        {
            let problem = path_problem(keys[i].as_slice());
            if let Some(reason) = problem {
                return Err(DiffError::InvalidEntry { side, path: listing[i].path.clone(), reason });
            }
            if listing[i].error.is_none() && parse_i128(listing[i].mtime_ns.as_str()).is_none() {
                return Err(DiffError::InvalidEntry { side, path: listing[i].path.clone(), reason: "mtime_ns must be an integer" });
            }
            if repeated[i] {
                proof {
                    let j = choose|j: int| 0 <= j < i && (#[trigger] keys@[j])@ == keys@[i as int]@;
                    assert(listing@[j].path@ == listing@[i as int].path@);
                }
                return Err(DiffError::InvalidEntry { side, path: listing[i].path.clone(), reason: "listed more than once" });
            }
            proof {
                if exists|j: int| 0 <= j < i && (#[trigger] listing@[j]).path@ == listing@[i as int].path@ {
                    let j = choose|j: int| 0 <= j < i && (#[trigger] listing@[j]).path@ == listing@[i as int].path@;
                    assert(keys@[j]@ == keys@[i as int]@);
                }
                assert(entry_reason(listing@, i as int) is None);
            }
        }
        proof {
            assert forall|i: int, j: int| 0 <= i < n && 0 <= j < n && i != j implies (#[trigger] listing@[i]).path@ != (#[trigger] listing@[j]).path@ by {
                if i < j {
                    assert(entry_reason(listing@, j) is None);
                } else {
                    assert(entry_reason(listing@, i) is None);
                }
            }
            assert forall|i: int, j: int| 0 <= i < keys@.len() && 0 <= j < keys@.len() && i != j implies #[trigger] keys@[i].before(keys@[j]) || #[trigger] keys@[j].before(keys@[i]) by {
                assert(listing@[i].path@ != listing@[j].path@);
                crate::order::lemma_lex_total(keys@[i]@, keys@[j]@);
            }
        }
        let order = sorted_order(&keys);
        proof {
            assert(first_entry_problem(listing@, n as int) is None);
        }
        let mut sorted: Vec<Vec<char>> = Vec::new();
        for p in 0..n
            invariant
                n == listing@.len(),
                keys@.len() == n,
                order@.len() == n,
                sorted@.len() == p,
                forall|q: int| 0 <= q < n ==> (#[trigger] order@[q]) < n,
                forall|k: int| 0 <= k < n ==> (#[trigger] keys@[k])@ == listing@[k].path@,
                forall|q: int| 0 <= q < p ==> (#[trigger] sorted@[q])@ == listing@[order@[q] as int].path@,
        {
            let key = keys[order[p]].clone();
            proof {
                assert(key@ =~= keys@[order@[p as int] as int]@);
            }
            sorted.push(key);
        }
        proof {
            assert forall|p: int, q: int| 0 <= p < q < n implies lex_lt((#[trigger] sorted@[p])@, (#[trigger] sorted@[q])@) by {
                assert(keys@[order@[p] as int].before(keys@[order@[q] as int]));
            }
        }
        let mut kids: Vec<Vec<usize>> = Vec::new();
        for e in 0..n
            invariant
                kids@.len() == e,
                forall|k: int| 0 <= k < e ==> (#[trigger] kids@[k])@.len() == 0,
        {
            kids.push(Vec::new());
        }
        let mut roots: Vec<usize> = Vec::new();
        for i in 0..n
            invariant
                n == listing@.len(),
                keys@.len() == n,
                order@.len() == n,
                sorted@.len() == n,
                kids@.len() == n,
                forall|q: int| 0 <= q < n ==> (#[trigger] order@[q]) < n,
                forall|x: usize| order@.contains(x) <==> x < n,
                forall|k: int| 0 <= k < n ==> (#[trigger] keys@[k])@ == listing@[k].path@,
                forall|q: int| 0 <= q < n ==> (#[trigger] sorted@[q])@ == listing@[order@[q] as int].path@,
                forall|p: int, q: int| 0 <= p < q < n ==> lex_lt((#[trigger] sorted@[p])@, (#[trigger] sorted@[q])@),
                distinct_paths(listing@),
                first_entry_problem(listing@, 0) is None,
                forall|k: int| 0 <= k < n ==> entry_reason(listing@, k) is None,
                forall|k: int| 0 <= k < i ==> parent_reason(listing@, k) is None,
                first_parent_problem(listing@, 0) == first_parent_problem(listing@, i as int),
                forall|e: int| 0 <= e < n ==> lists_children((#[trigger] kids@[e])@, listing@, listing@[e].path@, i as int),
                lists_children(roots@, listing@, Seq::empty(), i as int),
        {
            let slash = find_last_slash(keys[i].as_slice());
            let ghost path = listing@[i as int].path@;
            proof {
                lemma_last_slash(path);
            }
            match slash {
                Some(k) if k > 0 => {
                    let (parent, _) = keys[i].as_slice().split_at(k);
                    proof {
                        assert(parent@ == parent_of(path));
                    }
                    match crate::order::search_sorted(&sorted, parent) {
                        None => {
                            proof {
                                if listed(listing@, parent@) {
                                    let j = lemma_listed_witness(listing@, parent@);
                                    assert(order@.contains(j as usize));
                                    let q = choose|q: int| 0 <= q < n && order@[q] == j as usize;
                                    assert(sorted@[q]@ == parent@);
                                }
                            }
                            return Err(DiffError::InvalidEntry { side, path: string_of(parent), reason: "has entries inside it but is not listed" });
                        },
                        Some(pos) => {
                            let e = order[pos];
                            proof {
                                lemma_entry_at(listing@, e as int);
                            }
                            if listing[e].kind != EntryKind::Dir {
                                return Err(DiffError::InvalidEntry { side, path: string_of(parent), reason: "has entries inside it but is not a folder" });
                            }
                            let ghost old_kids = kids@;
                            kids[e].push(i);
                            proof {
                                assert forall|f: int| 0 <= f < n implies lists_children((#[trigger] kids@[f])@, listing@, listing@[f].path@, i + 1) by {
                                    if f == e {
                                        lemma_push_child(old_kids[f]@, listing@, listing@[f].path@, i as int);
                                    } else {
                                        assert(kids@[f] == old_kids[f]);
                                        if parent_of(path) == listing@[f].path@ {
                                            assert(listing@[f].path@ == listing@[e as int].path@);
                                        }
                                        lemma_skip_child(old_kids[f]@, listing@, listing@[f].path@, i as int);
                                    }
                                }
                                lemma_skip_child(roots@, listing@, Seq::empty(), i as int);
                            }
                        },
                    }
                },
                _ => {
                    proof {
                        assert(parent_of(path).len() == 0);
                        assert(parent_of(path) =~= Seq::<char>::empty());
                        lemma_push_child(roots@, listing@, Seq::empty(), i as int);
                        assert forall|f: int| 0 <= f < n implies lists_children((#[trigger] kids@[f])@, listing@, listing@[f].path@, i + 1) by {
                            if parent_of(path) == listing@[f].path@ {
                                assert(entry_reason(listing@, f) is None);
                                assert(path_reason(listing@[f].path@) is None);
                            }
                            lemma_skip_child(kids@[f]@, listing@, listing@[f].path@, i as int);
                        }
                    }
                    roots.push(i);
                },
            }
        }
        let tree = Tree { entries: listing, keys, order, sorted, kids, roots };
        proof {
            reveal(Tree::folders_ok);
        }
        Ok(tree)
    }
}

// ---------------------------------------------------------------------------------
// The comparer

/// Compares two folder listings.
///
/// Used in three steps: construct it from both listings, record a digest (see
/// [`crate::hasher::Hasher`]) or an error for every job in [`FolderComparer::jobs`],
/// then call [`FolderComparer::diff`] for the tree. Only files present on both sides
/// with equal sizes need hashing; any other content difference is already known.
pub struct FolderComparer {
    left: Tree,
    right: Tree,
    jobs: Vec<HashJob>,
    /// Outcome of each job, indexed by job id.
    hashes: Vec<Option<Result<String, String>>>,
    /// For each left entry, the id of its left job when its content is hashed.
    job_of: Vec<Option<usize>>,
}

/// Both entries need hashing.
fn entries_need_hash(l: &FsEntry, r: &FsEntry) -> (res: bool)
    ensures
        res == needs_hash(*l, *r),
        res == (l.error is None && r.error is None && l.kind == EntryKind::File && r.kind == EntryKind::File && l.size == r.size),
{
    l.error.is_none() && r.error.is_none() && l.kind == EntryKind::File && r.kind == EntryKind::File && l.size == r.size
}

impl Comparison {
    /// The same comparison with one job's outcome recorded.
    pub open spec fn with_outcome(self, id: int, outcome: Option<Result<Seq<char>, Seq<char>>>) -> Comparison {
        Comparison { outcomes: self.outcomes.update(id, outcome), ..self }
    }
}

proof fn lemma_order_injective(t: Tree, q1: int, q2: int)
    requires
        t.index_ok(),
        0 <= q1 < t.entries@.len(),
        0 <= q2 < t.entries@.len(),
        q1 != q2,
    ensures
        t.order@[q1] != t.order@[q2],
{
    if t.order@[q1] == t.order@[q2] {
        if q1 < q2 {
            assert(lex_lt(t.sorted@[q1]@, t.sorted@[q2]@));
        } else {
            assert(lex_lt(t.sorted@[q2]@, t.sorted@[q1]@));
        }
        crate::order::lemma_lex_irreflexive(t.sorted@[q1]@);
    }
}

/// Where an entry is in a tree's sorted index.
proof fn lemma_position(t: Tree, i: int) -> (q: int)
    requires
        t.index_ok(),
        0 <= i < t.entries@.len(),
    ensures
        0 <= q < t.entries@.len(),
        t.order@[q] as int == i,
        t.sorted@[q]@ == t.entries@[i].path@,
{
    let iu = i as usize;
    assert(t.order@.contains(iu));
    let q = choose|q: int| 0 <= q < t.order@.len() && t.order@[q] == iu;
    q
}

/// A path listed in a tree is found at some position of its sorted index.
proof fn lemma_unlisted(t: Tree, path: Seq<char>)
    requires
        t.index_ok(),
        forall|q: int| 0 <= q < t.sorted@.len() ==> #[trigger] t.sorted@[q]@ != path,
    ensures
        !listed(t.entries@, path),
{
    if listed(t.entries@, path) {
        let j = lemma_listed_witness(t.entries@, path);
        let q = lemma_position(t, j);
    }
}

/// The job handed out at one position of the left index: present on both sides and
/// needing a hash, with the job's id, or else none.
spec fn job_at_ok(left: Tree, right: Tree, jobs: Seq<HashJob>, q: int, job: Option<usize>) -> bool {
    let i = left.order@[q] as int;
    let path = left.entries@[i].path@;
    match job {
        Some(id) => {
            &&& id % 2 == 0
            &&& id + 1 < jobs.len()
            &&& jobs[id as int].path@ == path
        },
        None => !(listed(right.entries@, path) && needs_hash(left.entries@[i], entry_at(right.entries@, path))),
    }
}

/// What each job is: a left job then a right job per path that needs hashing.
spec fn job_pair_ok(left: Tree, right: Tree, jobs: Seq<HashJob>, k: int) -> bool {
    let path = jobs[k].path@;
    let lm = left.entries@;
    let rm = right.entries@;
    &&& jobs[k].id == k
    &&& jobs[k].side == Side::Left
    &&& jobs[k + 1].id == k + 1
    &&& jobs[k + 1].side == Side::Right
    &&& jobs[k + 1].path@ == path
    &&& listed(lm, path)
    &&& listed(rm, path)
    &&& needs_hash(entry_at(lm, path), entry_at(rm, path))
    &&& jobs[k].size == entry_at(lm, path).size
    &&& jobs[k + 1].size == entry_at(lm, path).size
}

proof fn lemma_jobs_numbered(left: Tree, right: Tree, jobs: Seq<HashJob>)
    requires
        jobs.len() % 2 == 0,
        forall|k: int| 0 <= k < jobs.len() && k % 2 == 0 ==> job_pair_ok(left, right, jobs, k),
    ensures
        jobs_numbered(jobs),
{
    reveal(jobs_numbered);
    assert forall|k: int| 0 <= k < jobs.len() implies (#[trigger] jobs[k]).id == k by {
        if k % 2 == 0 {
            assert(job_pair_ok(left, right, jobs, k));
        } else {
            assert(job_pair_ok(left, right, jobs, k - 1));
        }
    }
    assert forall|k: int| 0 <= k < jobs.len() implies (#[trigger] jobs[k]).side == if k % 2 == 0 { Side::Left } else { Side::Right } by {
        if k % 2 == 0 {
            assert(job_pair_ok(left, right, jobs, k));
        } else {
            assert(job_pair_ok(left, right, jobs, k - 1));
        }
    }
}

proof fn lemma_jobs_needed(left: Tree, right: Tree, jobs: Seq<HashJob>)
    requires
        forall|k: int| 0 <= k < jobs.len() && k % 2 == 0 ==> job_pair_ok(left, right, jobs, k),
    ensures
        jobs_needed(left.entries@, right.entries@, jobs),
{
    reveal(jobs_needed);
    assert forall|k: int| 0 <= k < jobs.len() && k % 2 == 0 implies {
        let p = (#[trigger] jobs[k]).path@;
        &&& jobs[k + 1].path@ == p
        &&& listed(left.entries@, p)
        &&& listed(right.entries@, p)
        &&& needs_hash(entry_at(left.entries@, p), entry_at(right.entries@, p))
        &&& jobs[k].size == entry_at(left.entries@, p).size
        &&& jobs[k + 1].size == entry_at(left.entries@, p).size
    } by {
        assert(job_pair_ok(left, right, jobs, k));
    }
}

proof fn lemma_jobs_complete(left: Tree, right: Tree, jobs: Seq<HashJob>, job_of: Seq<Option<usize>>)
    requires
        left.index_ok(),
        job_of.len() == left.entries@.len(),
        forall|i: int| 0 <= i < left.entries@.len() ==> job_at_ok(left, right, jobs, lemma_position_spec(left, i), #[trigger] job_of[i]),
    ensures
        jobs_complete(left.entries@, right.entries@, jobs),
{
    reveal(jobs_complete);
    let lm = left.entries@;
    let rm = right.entries@;
    assert forall|path: Seq<char>| listed(lm, path) && listed(rm, path) && needs_hash(entry_at(lm, path), entry_at(rm, path))
        implies exists|k: int| 0 <= k < jobs.len() && k % 2 == 0 && (#[trigger] jobs[k]).path@ == path by {
        let i = lemma_listed_witness(lm, path);
        lemma_entry_at(lm, i);
        assert(job_at_ok(left, right, jobs, lemma_position_spec(left, i), job_of[i]));
        lemma_position_spec_ok(left, i);
        let id = job_of[i]->0;
        assert(jobs[id as int].path@ == path);
    }
}

proof fn lemma_jobs_ok(left: Tree, right: Tree, jobs: Seq<HashJob>, job_of: Seq<Option<usize>>)
    requires
        left.index_ok(),
        jobs.len() % 2 == 0,
        forall|k: int| 0 <= k < jobs.len() && k % 2 == 0 ==> job_pair_ok(left, right, jobs, k),
        forall|k1: int, k2: int| 0 <= k1 < k2 < jobs.len() && k1 % 2 == 0 && k2 % 2 == 0 ==> lex_lt((#[trigger] jobs[k1]).path@, (#[trigger] jobs[k2]).path@),
        job_of.len() == left.entries@.len(),
        forall|i: int| 0 <= i < left.entries@.len() ==> job_at_ok(left, right, jobs, lemma_position_spec(left, i), #[trigger] job_of[i]),
    ensures
        FolderComparer::jobs_found(left.entries@, right.entries@, jobs, job_of),
{
    lemma_jobs_numbered(left, right, jobs);
    lemma_jobs_needed(left, right, jobs);
    lemma_jobs_complete(left, right, jobs, job_of);
    assert(jobs_sorted(jobs)) by {
        reveal(jobs_sorted);
    }
    reveal(FolderComparer::jobs_found);
    let lm = left.entries@;
    let rm = right.entries@;
    assert forall|i: int| 0 <= i < lm.len() implies match #[trigger] job_of[i] {
        Some(id) => id % 2 == 0 && id + 1 < jobs.len() && jobs[id as int].path@ == lm[i].path@,
        None => !(listed(rm, lm[i].path@) && needs_hash(lm[i], entry_at(rm, lm[i].path@))),
    } by {
        assert(job_at_ok(left, right, jobs, lemma_position_spec(left, i), job_of[i]));
        lemma_position_spec_ok(left, i);
    }
}

/// The position of an entry in a tree's sorted index.
spec fn lemma_position_spec(t: Tree, i: int) -> int {
    choose|q: int| 0 <= q < t.order@.len() && t.order@[q] as int == i
}

proof fn lemma_position_spec_ok(t: Tree, i: int)
    requires
        t.index_ok(),
        0 <= i < t.entries@.len(),
    ensures
        0 <= lemma_position_spec(t, i) < t.entries@.len(),
        t.order@[lemma_position_spec(t, i)] as int == i,
{
    let q = lemma_position(t, i);
    assert(t.order@[q] as int == i);
}

/// Works out which files need hashing: those on both sides, readable, of equal size,
/// in increasing path order.
fn find_jobs(left: &Tree, right: &Tree) -> (res: (Vec<HashJob>, Vec<Option<usize>>))
    requires
        left.index_ok(),
        right.index_ok(),
        left.entries@.len() < 0x8000_0000,
    ensures
        FolderComparer::jobs_found(left.entries@, right.entries@, res.0@, res.1@),
{
    let n = left.entries.len();
    let ghost lm = left.entries@;
    let ghost rm = right.entries@;
    let mut jobs: Vec<HashJob> = Vec::new();
    let mut job_at: Vec<Option<usize>> = Vec::new();
    let ghost mut last: int = 0;
    for p in 0..n
        invariant
            left.index_ok(),
            right.index_ok(),
            n == lm.len(),
            lm == left.entries@,
            rm == right.entries@,
            n < 0x8000_0000,
            job_at@.len() == p,
            jobs@.len() % 2 == 0,
            jobs@.len() <= 2 * p,
            forall|k: int| 0 <= k < jobs@.len() && k % 2 == 0 ==> job_pair_ok(*left, *right, jobs@, k),
            forall|k1: int, k2: int| 0 <= k1 < k2 < jobs@.len() && k1 % 2 == 0 && k2 % 2 == 0 ==> lex_lt((#[trigger] jobs@[k1]).path@, (#[trigger] jobs@[k2]).path@),
            jobs@.len() > 0 ==> 0 <= last < p && jobs@[jobs@.len() - 2].path@ == left.sorted@[last]@,
            forall|q: int| 0 <= q < p ==> job_at_ok(*left, *right, jobs@, q, #[trigger] job_at@[q]),
    {
        let i = left.order[p];
        proof {
            lemma_entry_at(lm, i as int);
        }
        let mut job: Option<usize> = None;
        match crate::order::search_sorted(&right.sorted, left.sorted[p].as_slice()) {
            Some(rp) => {
                let j = right.order[rp];
                proof {
                    lemma_entry_at(rm, j as int);
                }
                if entries_need_hash(&left.entries[i], &right.entries[j]) {
                    let id = jobs.len();
                    let ghost old_jobs = jobs@;
                    jobs.push(HashJob { id: id as u32, side: Side::Left, path: left.entries[i].path.clone(), size: left.entries[i].size });
                    jobs.push(HashJob { id: (id + 1) as u32, side: Side::Right, path: left.entries[i].path.clone(), size: left.entries[i].size });
                    job = Some(id);
                    proof {
                        assert forall|k: int| 0 <= k < jobs@.len() && k % 2 == 0 implies job_pair_ok(*left, *right, jobs@, k) by {
                            if k < id {
                                assert(job_pair_ok(*left, *right, old_jobs, k));
                                assert(jobs@[k] == old_jobs[k] && jobs@[k + 1] == old_jobs[k + 1]);
                            }
                        }
                        assert forall|k1: int, k2: int| 0 <= k1 < k2 < jobs@.len() && k1 % 2 == 0 && k2 % 2 == 0 implies lex_lt((#[trigger] jobs@[k1]).path@, (#[trigger] jobs@[k2]).path@) by {
                            assert(jobs@[k1] == old_jobs[k1]);
                            if k2 < id {
                                assert(jobs@[k2] == old_jobs[k2]);
                            } else {
                                let lastk = old_jobs.len() - 2;
                                assert(lex_lt(left.sorted@[last]@, left.sorted@[p as int]@));
                                if k1 < lastk {
                                    assert(lex_lt(old_jobs[k1].path@, old_jobs[lastk].path@));
                                    crate::order::lemma_lex_transitive(old_jobs[k1].path@, old_jobs[lastk].path@, left.sorted@[p as int]@);
                                }
                            }
                        }
                        assert forall|q: int| 0 <= q < p implies job_at_ok(*left, *right, jobs@, q, #[trigger] job_at@[q]) by {
                            assert(job_at_ok(*left, *right, old_jobs, q, job_at@[q]));
                            if let Some(id2) = job_at@[q] {
                                assert(jobs@[id2 as int] == old_jobs[id2 as int]);
                            }
                        }
                        last = p as int;
                    }
                }
            },
            None => {
                proof {
                    lemma_unlisted(*right, lm[i as int].path@);
                }
            },
        }
        job_at.push(job);
        proof {
            assert forall|q: int| 0 <= q < p + 1 implies job_at_ok(*left, *right, jobs@, q, #[trigger] job_at@[q]) by {
                if q == p {
                    if job is None {
                        if listed(rm, lm[i as int].path@) {
                            let j = lemma_listed_witness(rm, lm[i as int].path@);
                            lemma_entry_at(rm, j);
                            let rq = lemma_position(*right, j);
                        }
                    }
                }
            }
        }
    }
    let mut job_of: Vec<Option<usize>> = Vec::new();
    for i in 0..n
        invariant
            job_of@.len() == i,
    {
        job_of.push(None);
    }
    for q in 0..n
        invariant
            left.index_ok(),
            n == lm.len(),
            lm == left.entries@,
            job_of@.len() == n,
            job_at@.len() == n,
            forall|q2: int| 0 <= q2 < q ==> job_of@[#[trigger] left.order@[q2] as int] == job_at@[q2],
    {
        let ghost old_job_of = job_of@;
        job_of.set(left.order[q], job_at[q]);
        proof {
            assert forall|q2: int| 0 <= q2 < q + 1 implies job_of@[#[trigger] left.order@[q2] as int] == job_at@[q2] by {
                if q2 != q {
                    lemma_order_injective(*left, q2, q as int);
                }
            }
        }
    }
    proof {
        assert forall|i: int| 0 <= i < lm.len() implies job_at_ok(*left, *right, jobs@, lemma_position_spec(*left, i), #[trigger] job_of@[i]) by {
            lemma_position_spec_ok(*left, i);
            let q = lemma_position_spec(*left, i);
            assert(job_of@[left.order@[q] as int] == job_at@[q]);
        }
        lemma_jobs_ok(*left, *right, jobs@, job_of@);
    }
    (jobs, job_of)
}

impl FolderComparer {
    /// The listings, the jobs and what was recorded for them.
    pub closed spec fn model(self) -> Comparison {
        Comparison {
            left: self.left.entries@,
            right: self.right.entries@,
            jobs: self.jobs@,
            outcomes: self.hashes@.map_values(|o: Option<Result<String, String>>| outcome_view(o)),
        }
    }

    /// The jobs are those [`jobs_ok`] calls for, and `job_of` finds each one.
    #[verifier::opaque]
    closed spec fn jobs_found(left: Seq<FsEntry>, right: Seq<FsEntry>, jobs: Seq<HashJob>, job_of: Seq<Option<usize>>) -> bool {
        &&& jobs_ok(left, right, jobs)
        &&& job_of.len() == left.len()
        &&& forall|i: int| 0 <= i < left.len() ==> match #[trigger] job_of[i] {
            Some(id) => id % 2 == 0 && id + 1 < jobs.len() && jobs[id as int].path@ == left[i].path@,
            None => !(listed(right, left[i].path@) && needs_hash(left[i], entry_at(right, left[i].path@))),
        }
    }

    proof fn lemma_jobs_found(left: Seq<FsEntry>, right: Seq<FsEntry>, jobs: Seq<HashJob>, job_of: Seq<Option<usize>>)
        requires
            Self::jobs_found(left, right, jobs, job_of),
        ensures
            jobs_ok(left, right, jobs),
    {
        reveal(FolderComparer::jobs_found);
    }

    /// The comparer is well formed: both listings valid and indexed, the jobs found.
    pub closed spec fn wf(self) -> bool {
        &&& self.left.wf()
        &&& self.right.wf()
        &&& Self::jobs_found(self.left.entries@, self.right.entries@, self.jobs@, self.job_of@)
        &&& self.hashes@.len() == self.jobs@.len()
    }

    /// What a well-formed comparer's model always holds: valid listings, the jobs they
    /// call for, and one recorded outcome per job.
    pub proof fn lemma_model(&self)
        requires
            self.wf(),
        ensures
            self.model().valid(),
            self.model().jobs_ok(),
            self.model().outcomes.len() == self.model().jobs.len(),
    {
        self.left.lemma_valid();
        self.right.lemma_valid();
        FolderComparer::lemma_jobs_found(self.left.entries@, self.right.entries@, self.jobs@, self.job_of@);
    }

    /// Indexes both listings and works out which files need hashing, or rejects a
    /// listing: the left one's problem first, see [`listing_problem`].
    pub fn new(left: Vec<FsEntry>, right: Vec<FsEntry>) -> (res: Result<FolderComparer, DiffError>)
        requires
            left@.len() < 0x8000_0000,
        ensures
            match res {
                Ok(c) => {
                    &&& c.wf()
                    &&& listing_problem(left@) is None
                    &&& listing_problem(right@) is None
                    &&& c.model().left == left@
                    &&& c.model().right == right@
                    &&& c.model().jobs_ok()
                    &&& c.model().outcomes.len() == c.model().jobs.len()
                    &&& forall|i: int| 0 <= i < c.model().outcomes.len() ==> (#[trigger] c.model().outcomes[i]) is None
                },
                Err(e) => match listing_problem(left@) {
                    Some(pr) => is_invalid_entry(e, Side::Left, pr.0, pr.1),
                    None => listing_problem(right@) matches Some(pr) && is_invalid_entry(e, Side::Right, pr.0, pr.1),
                },
            },
    {
        let left = match Tree::new(Side::Left, left) {
            Ok(t) => t,
            Err(e) => return Err(e),
        };
        proof {
            left.lemma_valid();
        }
        let right = match Tree::new(Side::Right, right) {
            Ok(t) => t,
            Err(e) => return Err(e),
        };
        proof {
            right.lemma_valid();
        }
        let (jobs, job_of) = find_jobs(&left, &right);
        let mut hashes: Vec<Option<Result<String, String>>> = Vec::new();
        for k in 0..jobs.len()
            invariant
                hashes@.len() == k,
                forall|x: int| 0 <= x < k ==> (#[trigger] hashes@[x]) is None,
        {
            hashes.push(None);
        }
        let res = FolderComparer { left, right, jobs, hashes, job_of };
        proof {
            FolderComparer::lemma_jobs_found(res.left.entries@, res.right.entries@, res.jobs@, res.job_of@);
            assert(res.model().outcomes.len() == res.jobs@.len());
            assert forall|i: int| 0 <= i < res.model().outcomes.len() implies (#[trigger] res.model().outcomes[i]) is None by {
                assert(res.hashes@[i] is None);
            }
        }
        Ok(res)
    }

    /// The files to hash, sorted by path, left before right.
    pub fn jobs(&self) -> (res: &[HashJob])
        ensures
            res@ == self.model().jobs,
    {
        self.jobs.as_slice()
    }

    /// Records what became of a job: its digest or why its content could not be read.
    fn record(&mut self, id: u32, outcome: Result<String, String>) -> (res: Result<(), DiffError>)
        requires
            old(self).wf(),
        ensures
            final(self).wf(),
            (id as int) < old(self).model().jobs.len() ==> res is Ok && final(self).model() == old(self).model().with_outcome(id as int, outcome_view(Some(outcome))),
            (id as int) >= old(self).model().jobs.len() ==> (res matches Err(DiffError::UnknownJob(x)) && x == id && final(self).model() == old(self).model()),
    {
        if (id as usize) < self.hashes.len() {
            self.hashes[id as usize] = Some(outcome);
            proof {
                assert(self.model().outcomes =~= old(self).model().outcomes.update(id as int, outcome_view(Some(outcome))));
            }
            Ok(())
        } else {
            Err(DiffError::UnknownJob(id))
        }
    }

    /// Records the digest of a job's content.
    pub fn set_hash(&mut self, id: u32, hash: &str) -> (res: Result<(), DiffError>)
        requires
            old(self).wf(),
        ensures
            final(self).wf(),
            (id as int) < old(self).model().jobs.len() ==> res is Ok && final(self).model() == old(self).model().with_outcome(id as int, Some(Ok(hash@))),
            (id as int) >= old(self).model().jobs.len() ==> (res matches Err(DiffError::UnknownJob(x)) && x == id && final(self).model() == old(self).model()),
    {
        self.record(id, Ok(String::from_str(hash)))
    }

    /// Records why a job's content could not be read, leaving that file unknown.
    pub fn set_error(&mut self, id: u32, message: &str) -> (res: Result<(), DiffError>)
        requires
            old(self).wf(),
        ensures
            final(self).wf(),
            (id as int) < old(self).model().jobs.len() ==> res is Ok && final(self).model() == old(self).model().with_outcome(id as int, Some(Err(message@))),
            (id as int) >= old(self).model().jobs.len() ==> (res matches Err(DiffError::UnknownJob(x)) && x == id && final(self).model() == old(self).model()),
    {
        self.record(id, Err(String::from_str(message)))
    }
}


// ---------------------------------------------------------------------------------
// Comparing one path

/// The characters of an optional string slice.
pub open spec fn opt_view(o: Option<&str>) -> Option<Seq<char>> {
    match o {
        Some(s) => Some(s@),
        None => None,
    }
}

/// A comparison result with its message taken by its characters.
pub open spec fn result_view(r: Result<bool, String>) -> Result<bool, Seq<char>> {
    match r {
        Ok(b) => Ok(b),
        Err(m) => Err(m@),
    }
}

/// Joins per-side problems into one message, or none when there are none.
pub fn sided_error(left: Option<&str>, right: Option<&str>) -> (res: Option<String>)
    ensures
        opt_str(res) == sided(opt_view(left), opt_view(right)),
{
    match (left, right) {
        (Some(l), Some(r)) => {
            let mut m = String::from_str("left: ");
            m.append(l);
            m.append("; right: ");
            m.append(r);
            Some(m)
        },
        (Some(l), None) => {
            let mut m = String::from_str("left: ");
            m.append(l);
            Some(m)
        },
        (None, Some(r)) => {
            let mut m = String::from_str("right: ");
            m.append(r);
            Some(m)
        },
        (None, None) => None,
    }
}

/// Why a job has no usable digest, if it has none.
pub fn hash_problem(result: &Option<Result<String, String>>) -> (res: Option<&str>)
    ensures
        opt_view(res) == outcome_problem(outcome_view(*result)),
{
    match result {
        None => Some("content was not hashed"),
        Some(Err(message)) => Some(message.as_str()),
        Some(Ok(_)) => None,
    }
}

/// The string an optional `String` holds, borrowed.
fn opt_as_str(o: &Option<String>) -> (res: Option<&str>)
    ensures
        opt_view(res) == opt_str(*o),
{
    match o {
        Some(s) => Some(s.as_str()),
        None => None,
    }
}

/// A copy of a list of indices.
fn copy_indices(v: &Vec<usize>) -> (res: Vec<usize>)
    ensures
        res@ == v@,
{
    let mut res: Vec<usize> = Vec::new();
    for i in 0..v.len()
        invariant
            res@ =~= v@.subrange(0, i as int),
    {
        res.push(v[i]);
        proof {
            assert(res@ =~= v@.subrange(0, i + 1));
        }
    }
    res
}

impl Tree {
    /// The entry with this path, if the listing has one.
    fn find(&self, path: &[char]) -> (res: Option<usize>)
        requires
            self.index_ok(),
        ensures
            match res {
                Some(i) => {
                    &&& i < self.entries@.len()
                    &&& self.entries@[i as int].path@ == path@
                    &&& listed(self.entries@, path@)
                    &&& entry_at(self.entries@, path@) == self.entries@[i as int]
                },
                None => !listed(self.entries@, path@),
            },
    {
        match crate::order::search_sorted(&self.sorted, path) {
            Some(q) => {
                let i = self.order[q];
                proof {
                    lemma_entry_at(self.entries@, i as int);
                }
                Some(i)
            },
            None => {
                proof {
                    lemma_unlisted(*self, path@);
                }
                None
            },
        }
    }

    /// The entries directly inside the folder `parent`, or at the top level when it is
    /// empty, in listing order.
    fn kids_of(&self, parent: &[char]) -> (res: Vec<usize>)
        requires
            self.wf(),
        ensures
            lists_children(res@, self.entries@, parent@, self.entries@.len() as int),
    {
        proof {
            reveal(Tree::folders_ok);
        }
        if parent.len() == 0 {
            proof {
                assert(parent@ =~= Seq::<char>::empty());
            }
            return copy_indices(&self.roots);
        }
        match self.find(parent) {
            Some(e) => copy_indices(&self.kids[e]),
            None => {
                proof {
                    assert forall|j: int| 0 <= j < self.entries@.len() implies parent_of(#[trigger] self.entries@[j].path@) != parent@ by {
                        assert(parent_reason(self.entries@, j) is None);
                    }
                }
                Vec::new()
            },
        }
    }
}

/// The job handed out at an even position is the one [`Comparison::job_of`] finds for
/// its path.
pub proof fn lemma_job_of(c: Comparison, id: int)
    requires
        c.jobs_ok(),
        0 <= id < c.jobs.len(),
        id % 2 == 0,
    ensures
        c.job_of(c.jobs[id].path@) == Some(id),
{
    reveal(jobs_sorted);
    let p = c.jobs[id].path@;
    assert(exists|i: int| 0 <= i < c.jobs.len() && i % 2 == 0 && (#[trigger] c.jobs[i]).path@ == p) by {
        assert(0 <= id < c.jobs.len() && id % 2 == 0 && c.jobs[id].path@ == p);
    }
    let i = c.job_of(p)->0;
    assert(0 <= i < c.jobs.len() && i % 2 == 0 && c.jobs[i].path@ == p);
    if i < id {
        assert(lex_lt(c.jobs[i].path@, c.jobs[id].path@));
        crate::order::lemma_lex_irreflexive(p);
    }
    if i > id {
        assert(lex_lt(c.jobs[id].path@, c.jobs[i].path@));
        crate::order::lemma_lex_irreflexive(p);
    }
}

impl FolderComparer {
    /// Whether the content of a file listed on both sides differs, or why that is
    /// not known.
    fn content_differs(&self, li: usize, ri: usize) -> (res: Result<bool, String>)
        requires
            self.wf(),
            li < self.left.entries@.len(),
            ri < self.right.entries@.len(),
            self.left.entries@[li as int].path@ == self.right.entries@[ri as int].path@,
            self.left.entries@[li as int].error is None,
            self.right.entries@[ri as int].error is None,
            self.left.entries@[li as int].kind == EntryKind::File,
            self.right.entries@[ri as int].kind == EntryKind::File,
        ensures
            result_view(res) == self.model().content(
                self.left.entries@[li as int].path@,
                self.left.entries@[li as int],
                self.right.entries@[ri as int],
            ),
    {
        let l = &self.left.entries[li];
        let r = &self.right.entries[ri];
        if l.size != r.size {
            return Ok(true);
        }
        let ghost p = l.path@;
        proof {
            reveal(FolderComparer::jobs_found);
            lemma_entry_at(self.right.entries@, ri as int);
        }
        match self.job_of[li] {
            None => {
                proof {
                    assert(false);
                }
                Err(String::from_str("content was not hashed"))
            },
            Some(id) => {
                proof {
                    lemma_job_of(self.model(), id as int);
                }
                let lo = &self.hashes[id];
                let ro = &self.hashes[id + 1];
                match (lo, ro) {
                    (Some(Ok(a)), Some(Ok(b))) => Ok(!(*a == *b)),
                    _ => match sided_error(hash_problem(lo), hash_problem(ro)) {
                        Some(m) => Err(m),
                        None => Err(String::new()),
                    },
                }
            },
        }
    }
}


/// Both entries' modification times parse to the same value, or both fail to.
fn same_mtime(l: &FsEntry, r: &FsEntry) -> (res: bool)
    ensures
        res == (parsed_i128(l.mtime_ns@) == parsed_i128(r.mtime_ns@)),
{
    match (parse_i128(l.mtime_ns.as_str()), parse_i128(r.mtime_ns.as_str())) {
        (Some(a), Some(b)) => a == b,
        (None, None) => true,
        _ => false,
    }
}

/// Both entries point to the same symlink target, or neither has one.
fn same_link(l: &FsEntry, r: &FsEntry) -> (res: bool)
    ensures
        res == (opt_str(l.link_target) == opt_str(r.link_target)),
{
    match (&l.link_target, &r.link_target) {
        (Some(a), Some(b)) => *a == *b,
        (None, None) => true,
        _ => false,
    }
}

impl FolderComparer {
    /// Status, reasons and error of a path listed on both sides.
    #[verifier::spinoff_prover]
    #[verifier::rlimit(30)]
    fn compare(&self, li: usize, ri: usize) -> (res: (ChangeStatus, Vec<ChangeReason>, Option<String>))
        requires
            self.wf(),
            li < self.left.entries@.len(),
            ri < self.right.entries@.len(),
            self.left.entries@[li as int].path@ == self.right.entries@[ri as int].path@,
        ensures
            (res.0, res.1@, opt_str(res.2)) == self.model().compare(
                self.left.entries@[li as int].path@,
                self.left.entries@[li as int],
                self.right.entries@[ri as int],
            ),
    {
        let l = &self.left.entries[li];
        let r = &self.right.entries[ri];
        let ghost p = l.path@;
        let ghost m = self.model();
        if l.error.is_some() || r.error.is_some() {
            let error = sided_error(opt_as_str(&l.error), opt_as_str(&r.error));
            let none: Vec<ChangeReason> = Vec::new();
            proof {
                assert(none@ =~= Seq::<ChangeReason>::empty());
            }
            return (ChangeStatus::Unknown, none, error);
        }
        let mut reasons: Vec<ChangeReason> = Vec::new();
        let mut error: Option<String> = None;
        if l.kind != r.kind || (l.mode & S_IFMT) != (r.mode & S_IFMT) {
            reasons.push(ChangeReason::Kind);
            proof {
                assert(reasons@ =~= seq![ChangeReason::Kind]);
            }
        } else {
            let ghost content = m.content(p, *l, *r);
            if l.kind == EntryKind::File {
                match self.content_differs(li, ri) {
                    Ok(true) => {
                        reasons.push(ChangeReason::Content);
                    },
                    Ok(false) => {},
                    Err(message) => {
                        error = Some(message);
                    },
                }
            }
            let ghost r1 = when(l.kind == EntryKind::File && content == Ok::<bool, Seq<char>>(true), ChangeReason::Content);
            proof {
                assert(reasons@ =~= r1);
            }
            let c2 = (l.kind == EntryKind::File || l.kind == EntryKind::Other) && l.size != r.size;
            if c2 {
                reasons.push(ChangeReason::Size);
            }
            let ghost r2 = r1 + when(c2, ChangeReason::Size);
            proof {
                assert(reasons@ =~= r2);
            }
            let c3 = (l.mode & PERMISSION_BITS) != (r.mode & PERMISSION_BITS);
            if c3 {
                reasons.push(ChangeReason::Permissions);
            }
            let ghost r3 = r2 + when(c3, ChangeReason::Permissions);
            proof {
                assert(reasons@ =~= r3);
            }
            let c4 = l.uid != r.uid || l.gid != r.gid;
            if c4 {
                reasons.push(ChangeReason::Owner);
            }
            let ghost r4 = r3 + when(c4, ChangeReason::Owner);
            proof {
                assert(reasons@ =~= r4);
            }
            let c5 = !same_mtime(l, r);
            if c5 {
                reasons.push(ChangeReason::ModifiedTime);
            }
            let ghost r5 = r4 + when(c5, ChangeReason::ModifiedTime);
            proof {
                assert(reasons@ =~= r5);
            }
            let c6 = !same_link(l, r);
            if c6 {
                reasons.push(ChangeReason::LinkTarget);
            }
            proof {
                assert(reasons@ =~= r5 + when(c6, ChangeReason::LinkTarget));
            }
        }
        let status = if reasons.len() > 0 {
            ChangeStatus::Modified
        } else if error.is_some() {
            ChangeStatus::Unknown
        } else {
            ChangeStatus::Unchanged
        };
        (status, reasons, error)
    }
}


// ---------------------------------------------------------------------------------
// The tree

/// The length of the longest path in a listing.
pub open spec fn longest(listing: Seq<FsEntry>) -> nat
    decreases listing.len(),
{
    if listing.len() == 0 {
        0
    } else {
        let rest = longest(listing.drop_last());
        let here = listing.last().path@.len();
        if here > rest {
            here
        } else {
            rest
        }
    }
}

proof fn lemma_longest(listing: Seq<FsEntry>, i: int)
    requires
        0 <= i < listing.len(),
    ensures
        listing[i].path@.len() <= longest(listing),
    decreases listing.len(),
{
    if i < listing.len() - 1 {
        lemma_longest(listing.drop_last(), i);
        assert(listing.drop_last()[i] == listing[i]);
    }
}

/// A valid path is not empty and does not start with `/`.
proof fn lemma_valid_start(p: Seq<char>)
    requires
        path_reason(p) is None,
    ensures
        p.len() > 0,
        p[0] != '/',
{
    if p.len() > 0 && p[0] == '/' {
        assert(first_slash(p) == 0);
        assert(p.subrange(0, 0).len() == 0);
    }
}

/// A valid path is longer than the path of its folder.
proof fn lemma_parent_shorter(p: Seq<char>)
    requires
        path_reason(p) is None,
    ensures
        parent_of(p).len() < p.len(),
{
    lemma_last_slash(p);
    lemma_valid_start(p);
}

/// Two valid paths in the same folder with the same name are the same path.
proof fn lemma_same_name(p1: Seq<char>, p2: Seq<char>)
    requires
        path_reason(p1) is None,
        path_reason(p2) is None,
        parent_of(p1) == parent_of(p2),
        name_of(p1) == name_of(p2),
    ensures
        p1 == p2,
{
    lemma_last_slash(p1);
    lemma_last_slash(p2);
    lemma_valid_start(p1);
    lemma_valid_start(p2);
    let a = last_slash(p1);
    let b = last_slash(p2);
    if a < 0 && b < 0 {
        assert(p1 =~= name_of(p1));
        assert(p2 =~= name_of(p2));
    } else if a >= 0 && b >= 0 {
        assert(parent_of(p1).len() == a);
        assert(parent_of(p2).len() == b);
        assert(name_of(p1).len() == p1.len() - a - 1);
        assert(name_of(p2).len() == p2.len() - b - 1);
        assert forall|k: int| 0 <= k < p1.len() implies p1[k] == p2[k] by {
            if k < a {
                assert(p1[k] == parent_of(p1)[k]);
                assert(p2[k] == parent_of(p2)[k]);
            } else if k > a {
                assert(p1[k] == name_of(p1)[k - a - 1]);
                assert(p2[k] == name_of(p2)[k - b - 1]);
            }
        }
        assert(p1 =~= p2);
    } else if a < 0 {
        assert(parent_of(p2).len() == b);
        assert(p2[0] == '/');
    } else {
        assert(parent_of(p1).len() == a);
        assert(p1[0] == '/');
    }
}

/// Sibling order is a strict order.
proof fn lemma_key_transitive(
    fa: bool, la: Seq<char>, na: Seq<char>,
    fb: bool, lb: Seq<char>, nb: Seq<char>,
    fc: bool, lc: Seq<char>, nc: Seq<char>,
)
    requires
        key_before(fa, la, na, fb, lb, nb),
        key_before(fb, lb, nb, fc, lc, nc),
    ensures
        key_before(fa, la, na, fc, lc, nc),
{
    if lex_lt(la, lb) && lex_lt(lb, lc) {
        crate::order::lemma_lex_transitive(la, lb, lc);
    }
    if lex_lt(na, nb) && lex_lt(nb, nc) {
        crate::order::lemma_lex_transitive(na, nb, nc);
    }
}

/// A child to be placed among its siblings, with what it sorts by.
struct NodeKey {
    folder: bool,
    lower: Vec<char>,
    name: Vec<char>,
    path: Vec<char>,
}

impl SortKey for NodeKey {
    closed spec fn before(self, other: Self) -> bool {
        key_before(self.folder, self.lower@, self.name@, other.folder, other.lower@, other.name@)
    }

    proof fn lemma_transitive(a: Self, b: Self, c: Self) {
        lemma_key_transitive(a.folder, a.lower@, a.name@, b.folder, b.lower@, b.name@, c.folder, c.lower@, c.name@);
    }

    proof fn lemma_irreflexive(a: Self) {
        crate::order::lemma_lex_irreflexive(a.lower@);
        crate::order::lemma_lex_irreflexive(a.name@);
    }

    fn compare(&self, other: &Self) -> (res: Order) {
        proof {
            crate::order::lemma_lex_asymmetric(self.lower@, other.lower@);
            crate::order::lemma_lex_asymmetric(self.name@, other.name@);
            crate::order::lemma_lex_irreflexive(self.lower@);
            crate::order::lemma_lex_irreflexive(self.name@);
        }
        if self.folder && !other.folder {
            Order::Less
        } else if !self.folder && other.folder {
            Order::Greater
        } else {
            match compare_chars(self.lower.as_slice(), other.lower.as_slice()) {
                Order::Equal => compare_chars(self.name.as_slice(), other.name.as_slice()),
                c => c,
            }
        }
    }
}

/// The key describes its listed path: whether it is a folder on either side, its
/// lowercased name and its name.
spec fn key_ok(c: Comparison, k: NodeKey) -> bool {
    let p = k.path@;
    &&& c.in_union(p)
    &&& path_reason(p) is None
    &&& k.name@ == name_of(p)
    &&& k.lower@ == lowercase(name_of(p))
    &&& k.folder == is_folder_spec(Comparison::kind_in(c.left, p), Comparison::kind_in(c.right, p))
}

/// Keys of distinct valid paths in one folder are ordered one way or the other.
proof fn lemma_distinct_keys(c: Comparison, keys: Seq<NodeKey>, parent: Seq<char>)
    requires
        forall|i: int| 0 <= i < keys.len() ==> key_ok(c, #[trigger] keys[i]) && parent_of(keys[i].path@) == parent,
        forall|i: int, j: int| 0 <= i < keys.len() && 0 <= j < keys.len() && i != j ==> (#[trigger] keys[i]).path@ != (#[trigger] keys[j]).path@,
    ensures
        distinct_keys(keys),
{
    assert forall|i: int, j: int| 0 <= i < keys.len() && 0 <= j < keys.len() && i != j implies #[trigger] keys[i].before(keys[j]) || #[trigger] keys[j].before(keys[i]) by {
        let a = keys[i];
        let b = keys[j];
        assert(key_ok(c, a) && key_ok(c, b));
        if a.name@ == b.name@ {
            lemma_same_name(a.path@, b.path@);
        }
        if a.lower@ != b.lower@ {
            crate::order::lemma_lex_total(a.lower@, b.lower@);
        }
        if a.name@ != b.name@ {
            crate::order::lemma_lex_total(a.name@, b.name@);
        }
    }
}

/// A node placed by its key sorts among its siblings as its key does.
proof fn lemma_node_order(c: Comparison, a: TreeNode, ka: NodeKey, b: TreeNode, kb: NodeKey)
    requires
        c.node_ok(a),
        c.node_ok(b),
        key_ok(c, ka),
        key_ok(c, kb),
        a.path@ == ka.path@,
        b.path@ == kb.path@,
        ka.before(kb),
    ensures
        Comparison::node_before(a, b),
{
}

/// The name of a path: the characters after its last `/`.
fn name_slice(path: &[char]) -> (res: &[char])
    ensures
        res@ == name_of(path@),
{
    proof {
        lemma_last_slash(path@);
    }
    let n = path.len();
    match find_last_slash(path) {
        Some(k) => vstd::slice::slice_subrange(path, k + 1, n),
        None => {
            proof {
                assert(path@.subrange(0, path@.len() as int) =~= path@);
            }
            path
        },
    }
}

/// A copy of an optional string.
fn clone_opt(o: &Option<String>) -> (res: Option<String>)
    ensures
        opt_str(res) == opt_str(*o),
{
    match o {
        Some(s) => Some(s.clone()),
        None => None,
    }
}

impl FolderComparer {
    /// An upper bound on the length of every listed path.
    spec fn depth_bound(self) -> int {
        (longest(self.left.entries@) + longest(self.right.entries@)) as int
    }

    /// A path listed on either side is valid, within [`FolderComparer::depth_bound`],
    /// and its folder, when it has one, is listed too.
    proof fn lemma_union_path(self, p: Seq<char>)
        requires
            self.wf(),
            self.model().in_union(p),
        ensures
            path_reason(p) is None,
            p.len() <= self.depth_bound(),
            parent_of(p).len() > 0 ==> self.model().in_union(parent_of(p)),
    {
        reveal(Tree::folders_ok);
        if listed(self.left.entries@, p) {
            let j = lemma_listed_witness(self.left.entries@, p);
            assert(entry_reason(self.left.entries@, j) is None);
            assert(parent_reason(self.left.entries@, j) is None);
            lemma_longest(self.left.entries@, j);
        } else {
            let j = lemma_listed_witness(self.right.entries@, p);
            assert(entry_reason(self.right.entries@, j) is None);
            assert(parent_reason(self.right.entries@, j) is None);
            lemma_longest(self.right.entries@, j);
        }
    }

    /// The sort key of a listed path.
    fn node_key(&self, path: &[char]) -> (res: NodeKey)
        requires
            self.wf(),
            self.model().in_union(path@),
        ensures
            res.path@ == path@,
            key_ok(self.model(), res),
    {
        proof {
            self.lemma_union_path(path@);
        }
        let name = name_slice(path);
        let folder_left = match self.left.find(path) {
            Some(i) => self.left.entries[i].kind == EntryKind::Dir,
            None => false,
        };
        let folder_right = match self.right.find(path) {
            Some(j) => self.right.entries[j].kind == EntryKind::Dir,
            None => false,
        };
        let name_string = string_of(name);
        let lower = chars_of(to_lowercase(name_string.as_str()).as_str());
        NodeKey {
            folder: folder_left || folder_right,
            lower,
            name: vstd::slice::slice_to_vec(name),
            path: vstd::slice::slice_to_vec(path),
        }
    }
}


impl FolderComparer {
    /// The keys of the paths listed directly inside `parent` on either side, each once.
    fn child_keys(&self, parent: &[char]) -> (res: Vec<NodeKey>)
        requires
            self.wf(),
        ensures
            forall|c: int| 0 <= c < res@.len() ==> key_ok(self.model(), #[trigger] res@[c]) && parent_of(res@[c].path@) == parent@,
            forall|c1: int, c2: int| 0 <= c1 < res@.len() && 0 <= c2 < res@.len() && c1 != c2 ==> (#[trigger] res@[c1]).path@ != (#[trigger] res@[c2]).path@,
            forall|q: Seq<char>| self.model().in_union(q) && parent_of(q) == parent@ ==> exists|c: int| 0 <= c < res@.len() && (#[trigger] res@[c]).path@ == q,
    {
        let ghost lm = self.left.entries@;
        let ghost rm = self.right.entries@;
        let lk = self.left.kids_of(parent);
        let rk = self.right.kids_of(parent);
        let mut keys: Vec<NodeKey> = Vec::new();
        for x in 0..lk.len()
            invariant
                self.wf(),
                lm == self.left.entries@,
                lists_children(lk@, lm, parent@, lm.len() as int),
                keys@.len() == x,
                forall|c: int| 0 <= c < x ==> (#[trigger] keys@[c]).path@ == lm[lk@[c] as int].path@ && key_ok(self.model(), keys@[c]),
        {
            let i = lk[x];
            proof {
                lemma_entry_at(lm, i as int);
            }
            let key = self.node_key(self.left.keys[i].as_slice());
            keys.push(key);
        }
        let n1 = keys.len();
        let ghost keys1 = keys@;
        proof {
            assert forall|c1: int, c2: int| 0 <= c1 < n1 && 0 <= c2 < n1 && c1 != c2 implies (#[trigger] keys1[c1]).path@ != (#[trigger] keys1[c2]).path@ by {
                assert(lk@[c1] != lk@[c2]) by {
                    if c1 < c2 {
                        assert(lk@[c1] < lk@[c2]);
                    } else {
                        assert(lk@[c2] < lk@[c1]);
                    }
                }
            }
        }
        let ghost mut from: Seq<int> = Seq::empty();
        for y in 0..rk.len()
            invariant
                self.wf(),
                lm == self.left.entries@,
                rm == self.right.entries@,
                lists_children(rk@, rm, parent@, rm.len() as int),
                keys@.len() == n1 + from.len(),
                keys@.subrange(0, n1 as int) == keys1,
                forall|t: int| 0 <= t < from.len() ==> 0 <= #[trigger] from[t] < y,
                forall|t1: int, t2: int| 0 <= t1 < t2 < from.len() ==> #[trigger] from[t1] < #[trigger] from[t2],
                forall|t: int| 0 <= t < from.len() ==> {
                    let k = #[trigger] keys@[n1 + t];
                    &&& k.path@ == rm[rk@[from[t]] as int].path@
                    &&& !listed(lm, k.path@)
                    &&& key_ok(self.model(), k)
                },
                forall|y2: int| 0 <= y2 < y && !listed(lm, rm[rk@[y2] as int].path@) ==> exists|t: int| 0 <= t < from.len() && #[trigger] from[t] == y2,
        {
            let j = rk[y];
            proof {
                lemma_entry_at(rm, j as int);
            }
            if self.left.find(self.right.keys[j].as_slice()).is_none() {
                let key = self.node_key(self.right.keys[j].as_slice());
                let ghost old_keys = keys@;
                let ghost old_from = from;
                keys.push(key);
                proof {
                    from = from.push(y as int);
                    assert(keys@.subrange(0, n1 as int) =~= old_keys.subrange(0, n1 as int));
                    assert forall|t: int| 0 <= t < from.len() implies {
                        let k = #[trigger] keys@[n1 + t];
                        &&& k.path@ == rm[rk@[from[t]] as int].path@
                        &&& !listed(lm, k.path@)
                        &&& key_ok(self.model(), k)
                    } by {
                        if t < old_from.len() {
                            assert(keys@[n1 + t] == old_keys[n1 + t]);
                            assert(from[t] == old_from[t]);
                        }
                    }
                    assert forall|y2: int| 0 <= y2 < y + 1 && !listed(lm, rm[rk@[y2] as int].path@) implies exists|t: int| 0 <= t < from.len() && #[trigger] from[t] == y2 by {
                        if y2 < y {
                            let t = choose|t: int| 0 <= t < old_from.len() && #[trigger] old_from[t] == y2;
                            assert(from[t] == y2);
                        } else {
                            assert(from[old_from.len() as int] == y2);
                        }
                    }
                }
            }
        }
        proof {
            assert forall|c: int| 0 <= c < n1 implies #[trigger] keys@[c] == keys1[c] by {
                assert(keys@.subrange(0, n1 as int)[c] == keys@[c]);
            }
            self.lemma_child_keys(parent@, lk@, rk@, keys@, n1 as int, from);
        }
        keys
    }

    /// What [`FolderComparer::child_keys`] gathered is what it promises.
    proof fn lemma_child_keys(self, parent: Seq<char>, lk: Seq<usize>, rk: Seq<usize>, keys: Seq<NodeKey>, n1: int, from: Seq<int>)
        requires
            self.wf(),
            lists_children(lk, self.left.entries@, parent, self.left.entries@.len() as int),
            lists_children(rk, self.right.entries@, parent, self.right.entries@.len() as int),
            n1 == lk.len(),
            keys.len() == n1 + from.len(),
            forall|c: int| 0 <= c < n1 ==> (#[trigger] keys[c]).path@ == self.left.entries@[lk[c] as int].path@ && key_ok(self.model(), keys[c]),
            forall|c1: int, c2: int| 0 <= c1 < n1 && 0 <= c2 < n1 && c1 != c2 ==> (#[trigger] keys[c1]).path@ != (#[trigger] keys[c2]).path@,
            forall|t: int| 0 <= t < from.len() ==> 0 <= #[trigger] from[t] < rk.len(),
            forall|t1: int, t2: int| 0 <= t1 < t2 < from.len() ==> #[trigger] from[t1] < #[trigger] from[t2],
            forall|t: int| 0 <= t < from.len() ==> {
                let k = #[trigger] keys[n1 + t];
                &&& k.path@ == self.right.entries@[rk[from[t]] as int].path@
                &&& !listed(self.left.entries@, k.path@)
                &&& key_ok(self.model(), k)
            },
            forall|y2: int| 0 <= y2 < rk.len() && !listed(self.left.entries@, self.right.entries@[rk[y2] as int].path@) ==> exists|t: int| 0 <= t < from.len() && #[trigger] from[t] == y2,
        ensures
            forall|c: int| 0 <= c < keys.len() ==> key_ok(self.model(), #[trigger] keys[c]) && parent_of(keys[c].path@) == parent,
            forall|c1: int, c2: int| 0 <= c1 < keys.len() && 0 <= c2 < keys.len() && c1 != c2 ==> (#[trigger] keys[c1]).path@ != (#[trigger] keys[c2]).path@,
            forall|q: Seq<char>| self.model().in_union(q) && parent_of(q) == parent ==> exists|c: int| 0 <= c < keys.len() && (#[trigger] keys[c]).path@ == q,
    {
        let lm = self.left.entries@;
        let rm = self.right.entries@;
        assert forall|c: int| 0 <= c < keys.len() implies key_ok(self.model(), #[trigger] keys[c]) && parent_of(keys[c].path@) == parent by {
            if c < n1 {
                assert(keys[c].path@ == lm[lk[c] as int].path@);
            } else {
                let t = c - n1;
                assert(keys[n1 + t].path@ == rm[rk[from[t]] as int].path@);
            }
        }
        assert forall|c1: int, c2: int| 0 <= c1 < keys.len() && 0 <= c2 < keys.len() && c1 != c2 implies (#[trigger] keys[c1]).path@ != (#[trigger] keys[c2]).path@ by {
            if c1 < n1 && c2 < n1 {
            } else if c1 >= n1 && c2 >= n1 {
                let t1 = c1 - n1;
                let t2 = c2 - n1;
                assert(keys[n1 + t1].path@ == rm[rk[from[t1]] as int].path@);
                assert(keys[n1 + t2].path@ == rm[rk[from[t2]] as int].path@);
                if t1 < t2 {
                    assert(from[t1] < from[t2]);
                    assert(rk[from[t1]] < rk[from[t2]]);
                } else {
                    assert(from[t2] < from[t1]);
                    assert(rk[from[t2]] < rk[from[t1]]);
                }
            } else if c1 < n1 {
                let t2 = c2 - n1;
                assert(!listed(lm, keys[n1 + t2].path@));
                lemma_entry_at(lm, lk[c1] as int);
            } else {
                let t1 = c1 - n1;
                assert(!listed(lm, keys[n1 + t1].path@));
                lemma_entry_at(lm, lk[c2] as int);
            }
        }
        assert forall|q: Seq<char>| self.model().in_union(q) && parent_of(q) == parent implies exists|c: int| 0 <= c < keys.len() && (#[trigger] keys[c]).path@ == q by {
            if listed(lm, q) {
                let j = lemma_listed_witness(lm, q);
                assert(lk.contains(j as usize));
                let x = choose|x: int| 0 <= x < lk.len() && lk[x] == j as usize;
                assert(keys[x].path@ == q);
            } else {
                let j = lemma_listed_witness(rm, q);
                assert(rk.contains(j as usize));
                let y2 = choose|y2: int| 0 <= y2 < rk.len() && rk[y2] == j as usize;
                let t = choose|t: int| 0 <= t < from.len() && #[trigger] from[t] == y2;
                assert(keys[n1 + t].path@ == q);
            }
        }
    }
}


impl FolderComparer {
    /// The node of a listed path, with everything below it, and its tally: the node
    /// and every node below it counted by status.
    fn node(&self, path: &[char]) -> (res: (TreeNode, FolderStats))
        requires
            self.wf(),
            self.model().in_union(path@),
        ensures
            res.0.path@ == path@,
            self.model().node_ok(res.0),
            forall|s: ChangeStatus| #[trigger] res.1.of(s) == self.model().count(subtree_paths(res.0), s),
        decreases self.depth_bound() - path@.len(), 1int,
    {
        let ghost m = self.model();
        let li = self.left.find(path);
        let ri = self.right.find(path);
        let (status, reasons, error) = match (li, ri) {
            (Some(i), None) => (ChangeStatus::Deleted, Vec::new(), clone_opt(&self.left.entries[i].error)),
            (None, Some(j)) => (ChangeStatus::Added, Vec::new(), clone_opt(&self.right.entries[j].error)),
            (Some(i), Some(j)) => self.compare(i, j),
            (None, None) => {
                proof {
                    assert(false);
                }
                (ChangeStatus::Unchanged, Vec::new(), None)
            },
        };
        proof {
            assert((status, reasons@, opt_str(error)) == m.outcome(path@));
        }
        let (children, mut stats) = self.children(path);
        let mut any = false;
        for k in 0..children.len()
            invariant
                any == exists|c: int| 0 <= c < k && (#[trigger] children@[c]).has_changes,
        {
            if children[k].has_changes {
                any = true;
            }
        }
        let left_kind = match li {
            Some(i) => Some(self.left.entries[i].kind),
            None => None,
        };
        let right_kind = match ri {
            Some(j) => Some(self.right.entries[j].kind),
            None => None,
        };
        let node = TreeNode {
            name: string_of(name_slice(path)),
            path: string_of(path),
            left_kind,
            right_kind,
            status,
            reasons,
            has_changes: status != ChangeStatus::Unchanged || any,
            error,
            children,
        };
        proof {
            self.lemma_model();
            assert(m.node_ok(node));
            lemma_subtree_paths(m, node);
            let kids = forest_paths(node.children@, node.children@.len() as int);
            assert(subtree_paths(node) == seq![path@] + kids);
            assert(seq![path@].drop_last() =~= Seq::<Seq<char>>::empty());
            assert forall|s: ChangeStatus| #[trigger] m.count(subtree_paths(node), s)
                == m.count(kids, s) + if s == status { 1int } else { 0int } by {
                lemma_count_concat(m, seq![path@], kids, s);
                assert(m.count(Seq::<Seq<char>>::empty(), s) == 0);
            }
            lemma_count_fits(m, subtree_paths(node), status);
            assert(self.left.entries.len() == m.left.len());
            assert(self.right.entries.len() == m.right.len());
        }
        stats.count(status);
        (node, stats)
    }

    /// The nodes of the paths listed directly inside `parent`, or at the top level
    /// when it is empty, in sibling order, and their tally: every node at or below them
    /// counted by status.
    fn children(&self, parent: &[char]) -> (res: (Vec<TreeNode>, FolderStats))
        requires
            self.wf(),
        ensures
            self.model().children_shape(res.0@, parent@),
            forall|i: int| 0 <= i < res.0@.len() ==> self.model().node_ok(#[trigger] res.0@[i]),
            forall|s: ChangeStatus| #[trigger] res.1.of(s) == self.model().count(forest_paths(res.0@, res.0@.len() as int), s),
        decreases self.depth_bound() - parent@.len(), 0int,
    {
        let ghost m = self.model();
        let keys = self.child_keys(parent);
        proof {
            lemma_distinct_keys(m, keys@, parent@);
        }
        let order = sorted_order(&keys);
        let mut nodes: Vec<TreeNode> = Vec::new();
        let mut tallies: Vec<FolderStats> = Vec::new();
        for q in 0..order.len()
            invariant
                self.wf(),
                m == self.model(),
                sorted_by_keys(keys@, order@),
                order@.len() == keys@.len(),
                forall|c: int| 0 <= c < keys@.len() ==> key_ok(m, #[trigger] keys@[c]) && parent_of(keys@[c].path@) == parent@,
                nodes@.len() == q,
                tallies@.len() == q,
                forall|k: int| 0 <= k < q ==> (#[trigger] nodes@[k]).path@ == keys@[order@[k] as int].path@ && m.node_ok(nodes@[k]),
                forall|k: int, s: ChangeStatus| 0 <= k < q ==> #[trigger] tallies@[k].of(s) == m.count(subtree_paths(nodes@[k]), s),
        {
            let key = &keys[order[q]];
            proof {
                self.lemma_union_path(key.path@);
                lemma_parent_shorter(key.path@);
            }
            let (node, tally) = self.node(key.path.as_slice());
            nodes.push(node);
            tallies.push(tally);
        }
        proof {
            self.lemma_children(parent@, keys@, order@, nodes@);
            self.lemma_model();
        }
        let mut stats = FolderStats::new();
        for k in 0..nodes.len()
            invariant
                self.wf(),
                m == self.model(),
                m.valid(),
                level_ok(m, nodes@, parent@),
                tallies@.len() == nodes@.len(),
                forall|k2: int, s: ChangeStatus| 0 <= k2 < nodes@.len() ==> #[trigger] tallies@[k2].of(s) == m.count(subtree_paths(nodes@[k2]), s),
                forall|s: ChangeStatus| #[trigger] stats.of(s) == m.count(forest_paths(nodes@, k as int), s),
        {
            proof {
                let before = forest_paths(nodes@, k as int);
                let after = forest_paths(nodes@, k + 1);
                assert(after == before + subtree_paths(nodes@[k as int]));
                lemma_forest_paths(m, nodes@, parent@, k + 1);
                assert(self.left.entries.len() == m.left.len());
                assert(self.right.entries.len() == m.right.len());
                assert forall|s: ChangeStatus| stats.of(s) + #[trigger] tallies@[k as int].of(s) <= usize::MAX by {
                    lemma_count_concat(m, before, subtree_paths(nodes@[k as int]), s);
                    lemma_count_fits(m, after, s);
                }
            }
            let ghost old_stats = stats;
            stats.add(tallies[k]);
            proof {
                assert forall|s: ChangeStatus| #[trigger] stats.of(s) == m.count(forest_paths(nodes@, k + 1), s) by {
                    assert(forest_paths(nodes@, k + 1) == forest_paths(nodes@, k as int) + subtree_paths(nodes@[k as int]));
                    lemma_count_concat(m, forest_paths(nodes@, k as int), subtree_paths(nodes@[k as int]), s);
                    assert(old_stats.of(s) == m.count(forest_paths(nodes@, k as int), s));
                }
            }
        }
        (nodes, stats)
    }

    /// Nodes built in key order are the children of `parent` in sibling order.
    proof fn lemma_children(self, parent: Seq<char>, keys: Seq<NodeKey>, order: Seq<usize>, nodes: Seq<TreeNode>)
        requires
            sorted_by_keys(keys, order),
            order.len() == keys.len(),
            keys.len() <= usize::MAX,
            forall|x: usize| order.contains(x) <==> x < keys.len(),
            forall|c: int| 0 <= c < keys.len() ==> key_ok(self.model(), #[trigger] keys[c]) && parent_of(keys[c].path@) == parent,
            forall|q: Seq<char>| self.model().in_union(q) && parent_of(q) == parent ==> exists|c: int| 0 <= c < keys.len() && (#[trigger] keys[c]).path@ == q,
            nodes.len() == order.len(),
            forall|k: int| 0 <= k < nodes.len() ==> (#[trigger] nodes[k]).path@ == keys[order[k] as int].path@ && self.model().node_ok(nodes[k]),
        ensures
            self.model().children_shape(nodes, parent),
    {
        let m = self.model();
        assert forall|i: int| 0 <= i < nodes.len() implies parent_of((#[trigger] nodes[i]).path@) == parent by {
            assert(key_ok(m, keys[order[i] as int]));
        }
        assert forall|q: Seq<char>| m.in_union(q) && parent_of(q) == parent implies exists|i: int| 0 <= i < nodes.len() && (#[trigger] nodes[i]).path@ == q by {
            let c = choose|c: int| 0 <= c < keys.len() && (#[trigger] keys[c]).path@ == q;
            assert(order.contains(c as usize));
            let k = choose|k: int| 0 <= k < order.len() && order[k] == c as usize;
            assert(nodes[k].path@ == q);
        }
        assert forall|i: int, j: int| 0 <= i < j < nodes.len() implies Comparison::node_before(#[trigger] nodes[i], #[trigger] nodes[j]) by {
            assert(keys[order[i] as int].before(keys[order[j] as int]));
            lemma_node_order(m, nodes[i], keys[order[i] as int], nodes[j], keys[order[j] as int]);
        }
    }
}


// ---------------------------------------------------------------------------------
// The whole comparison

pub proof fn lemma_count_concat(c: Comparison, a: Seq<Seq<char>>, b: Seq<Seq<char>>, s: ChangeStatus)
    ensures
        c.count(a + b, s) == c.count(a, s) + c.count(b, s),
    decreases b.len(),
{
    if b.len() == 0 {
        assert(a + b =~= a);
    } else {
        lemma_count_concat(c, a, b.drop_last(), s);
        assert((a + b).drop_last() =~= a + b.drop_last());
    }
}

impl FolderComparer {
    /// Builds the tree. Jobs never given a hash or error leave their file unknown.
    pub fn diff(self) -> (res: FolderDiff)
        requires
            self.wf(),
        ensures
            self.model().children_shape(res.entries@, Seq::empty()),
            forall|i: int| 0 <= i < res.entries@.len() ==> self.model().node_ok(#[trigger] res.entries@[i]),
            res.identical == forall|i: int| 0 <= i < res.entries@.len() ==> !(#[trigger] res.entries@[i]).has_changes,
            self.model().stats_match(res.stats),
    {
        let ghost m = self.model();
        let top: Vec<char> = Vec::new();
        let (entries, stats) = self.children(top.as_slice());
        let mut identical = true;
        for i in 0..entries.len()
            invariant
                identical == forall|k: int| 0 <= k < i ==> !(#[trigger] entries@[k]).has_changes,
        {
            if entries[i].has_changes {
                identical = false;
            }
        }
        proof {
            self.lemma_model();
            assert(top@ =~= Seq::<char>::empty());
            lemma_tree_paths(m, entries@);
        }
        FolderDiff { entries, stats, identical }
    }
}

} // verus!

