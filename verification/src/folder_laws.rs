//! What holds of every folder comparison: the statuses of paths inside a folder that
//! only one side lists, the shape of each outcome, a listing compared with itself,
//! and what `identical` means for the whole tree.

use vstd::prelude::*;

use crate::folder::{
    paths_of, unlisted_paths, FolderStats,
    entry_at, entry_reason, first_entry_problem, first_slash, lemma_first_slash, first_parent_problem, last_slash, lemma_last_slash,
    lemma_listed_witness, listed, listing_problem, parent_of, parent_reason, path_reason,
    ChangeReason, ChangeStatus, Comparison, EntryKind, FsEntry, TreeNode,
};
use crate::chars::lowercase;
use crate::folder::{jobs_complete, jobs_needed, jobs_numbered, jobs_ok, jobs_sorted, lemma_job_of, needs_hash, HashJob, Side, S_IFMT};
use crate::order::lex_lt;

verus! {

/// `q` is inside the folder `p`, at any depth.
pub open spec fn is_below(q: Seq<char>, p: Seq<char>) -> bool {
    &&& q.len() > p.len()
    &&& q.subrange(0, p.len() as int) == p
    &&& q[p.len() as int] == '/'
}

proof fn lemma_no_entry_problem(listing: Seq<FsEntry>, from: int)
    requires
        0 <= from,
        first_entry_problem(listing, from) is None,
    ensures
        forall|i: int| from <= i < listing.len() ==> entry_reason(listing, i) is None,
    decreases listing.len() - from,
{
    if from < listing.len() {
        lemma_no_entry_problem(listing, from + 1);
    }
}

proof fn lemma_no_parent_problem(listing: Seq<FsEntry>, from: int)
    requires
        0 <= from,
        first_parent_problem(listing, from) is None,
    ensures
        forall|i: int| from <= i < listing.len() ==> parent_reason(listing, i) is None,
    decreases listing.len() - from,
{
    if from < listing.len() {
        lemma_no_parent_problem(listing, from + 1);
    }
}

/// A path of a valid listing is valid, and its folder, when it has one, is listed as
/// a folder.
pub proof fn lemma_listed_valid(listing: Seq<FsEntry>, p: Seq<char>)
    requires
        listing_problem(listing) is None,
        listed(listing, p),
    ensures
        path_reason(p) is None,
        parent_of(p).len() > 0 ==> listed(listing, parent_of(p)) && entry_at(listing, parent_of(p)).kind == EntryKind::Dir,
{
    lemma_no_entry_problem(listing, 0);
    lemma_no_parent_problem(listing, 0);
    let i = lemma_listed_witness(listing, p);
    assert(entry_reason(listing, i) is None);
    assert(parent_reason(listing, i) is None);
}

/// A valid path is not empty and does not start with `/`.
proof fn lemma_valid_start(p: Seq<char>)
    requires
        path_reason(p) is None,
    ensures
        p.len() > 0,
        p[0] != '/',
{
    if p.len() > 0 && p[0] == '/' {
        assert(crate::folder::first_slash(p) == 0);
        assert(p.subrange(0, 0).len() == 0);
    }
}

/// Every folder a listed path is inside is listed too, on the same side.
pub proof fn lemma_ancestor_listed(listing: Seq<FsEntry>, p: Seq<char>, q: Seq<char>)
    requires
        listing_problem(listing) is None,
        listed(listing, q),
        is_below(q, p),
    ensures
        listed(listing, p),
    decreases q.len(),
{
    lemma_listed_valid(listing, q);
    lemma_valid_start(q);
    lemma_last_slash(q);
    let k = p.len() as int;
    if k == 0 {
        assert(q[0] == '/');
    }
    let ls = last_slash(q);
    assert(ls >= k);
    let parent = parent_of(q);
    assert(parent.len() == ls);
    if ls == k {
        assert(parent =~= p);
    } else {
        assert(parent.subrange(0, k) =~= p);
        assert(parent[k] == q[k]);
        lemma_ancestor_listed(listing, p, parent);
    }
}

/// Everything inside a folder that only the right side lists is added.
pub proof fn lemma_inside_added(c: Comparison, p: Seq<char>, q: Seq<char>)
    requires
        c.valid(),
        !listed(c.left, p),
        c.in_union(q),
        is_below(q, p),
    ensures
        c.status(q) == ChangeStatus::Added,
{
    if listed(c.left, q) {
        lemma_ancestor_listed(c.left, p, q);
    }
}

/// Everything inside a folder that only the left side lists is deleted.
pub proof fn lemma_inside_deleted(c: Comparison, p: Seq<char>, q: Seq<char>)
    requires
        c.valid(),
        !listed(c.right, p),
        c.in_union(q),
        is_below(q, p),
    ensures
        c.status(q) == ChangeStatus::Deleted,
{
    if listed(c.right, q) {
        lemma_ancestor_listed(c.right, p, q);
    }
}

/// An entry has reasons exactly when it is modified, and it is unknown only with an
/// error that says why.
pub proof fn lemma_outcome_shape(c: Comparison, p: Seq<char>)
    ensures
        c.outcome(p).1.len() > 0 <==> c.outcome(p).0 == ChangeStatus::Modified,
        c.outcome(p).0 == ChangeStatus::Unknown ==> c.outcome(p).2 is Some,
{
}

/// A listed entry is an entry of the listing.
proof fn lemma_entry_at_member(listing: Seq<FsEntry>, p: Seq<char>) -> (i: int)
    requires
        listed(listing, p),
    ensures
        0 <= i < listing.len(),
        entry_at(listing, p) == listing[i],
        listing[i].path@ == p,
{
    reveal(listed);
    reveal(entry_at);
    assert(exists|i: int| 0 <= i < listing.len() && #[trigger] listing[i] == entry_at(listing, p) && listing[i].path@ == p);
    choose|i: int| 0 <= i < listing.len() && #[trigger] listing[i] == entry_at(listing, p) && listing[i].path@ == p
}

/// A readable listing compared with itself, each hashed file given one digest for both
/// sides, is unchanged throughout.
pub proof fn lemma_same_listing_unchanged(c: Comparison, p: Seq<char>)
    requires
        c.valid(),
        c.left == c.right,
        c.jobs_ok(),
        c.outcomes.len() == c.jobs.len(),
        forall|i: int| 0 <= i < c.left.len() ==> (#[trigger] c.left[i]).error is None,
        forall|i: int| 0 <= i < c.jobs.len() && i % 2 == 0 ==> (#[trigger] c.outcomes[i]) is Some && c.outcomes[i]->0 is Ok && c.outcomes[i + 1] == c.outcomes[i],
        c.in_union(p),
    ensures
        c.status(p) == ChangeStatus::Unchanged,
{
    let i = lemma_entry_at_member(c.left, p);
    let e = entry_at(c.left, p);
    assert(e.error is None);
    if e.kind == EntryKind::File {
        reveal(crate::folder::jobs_complete);
        assert(crate::folder::needs_hash(e, e));
        assert(exists|k: int| 0 <= k < c.jobs.len() && k % 2 == 0 && (#[trigger] c.jobs[k]).path@ == p);
        let k = c.job_of(p)->0;
        assert(0 <= k < c.jobs.len() && k % 2 == 0);
        assert(c.outcomes[k] is Some && c.outcomes[k]->0 is Ok && c.outcomes[k + 1] == c.outcomes[k]);
        assert(c.content(p, e, e) == Ok::<bool, Seq<char>>(false));
    }
    let (status, reasons, error) = c.compare(p, e, e);
    assert(reasons =~= Seq::<ChangeReason>::empty());
}

/// With every listed path unchanged, no node has changes.
proof fn lemma_quiet_node(c: Comparison, node: TreeNode)
    requires
        c.node_ok(node),
        forall|q: Seq<char>| c.in_union(q) ==> c.status(q) == ChangeStatus::Unchanged,
    ensures
        !node.has_changes,
    decreases node,
{
    assert forall|i: int| 0 <= i < node.children@.len() implies !(#[trigger] node.children@[i]).has_changes by {
        lemma_quiet_node(c, node.children@[i]);
    }
}

/// In a tree with no changes at the top, every listed path has a node with no changes.
proof fn lemma_node_at(c: Comparison, entries: Seq<TreeNode>, p: Seq<char>) -> (n: TreeNode)
    requires
        c.valid(),
        c.children_shape(entries, Seq::empty()),
        forall|i: int| 0 <= i < entries.len() ==> c.node_ok(#[trigger] entries[i]),
        forall|i: int| 0 <= i < entries.len() ==> !(#[trigger] entries[i]).has_changes,
        c.in_union(p),
    ensures
        n.path@ == p,
        c.node_ok(n),
        !n.has_changes,
    decreases p.len(),
{
    let side = if listed(c.left, p) { c.left } else { c.right };
    lemma_listed_valid(side, p);
    lemma_valid_start(p);
    lemma_last_slash(p);
    let q = parent_of(p);
    if q.len() == 0 {
        assert(q =~= Seq::<char>::empty());
        let i = choose|i: int| 0 <= i < entries.len() && (#[trigger] entries[i]).path@ == p;
        entries[i]
    } else {
        let up = lemma_node_at(c, entries, q);
        assert(c.children_shape(up.children@, q));
        let i = choose|i: int| 0 <= i < up.children@.len() && (#[trigger] up.children@[i]).path@ == p;
        assert(c.node_ok(up.children@[i]));
        up.children@[i]
    }
}

/// The comparison is identical, no top-level entry having changes, exactly when every
/// listed path is unchanged.
pub proof fn lemma_identical(c: Comparison, entries: Seq<TreeNode>)
    requires
        c.valid(),
        c.children_shape(entries, Seq::empty()),
        forall|i: int| 0 <= i < entries.len() ==> c.node_ok(#[trigger] entries[i]),
    ensures
        (forall|i: int| 0 <= i < entries.len() ==> !(#[trigger] entries[i]).has_changes)
            <==> (forall|q: Seq<char>| c.in_union(q) ==> c.status(q) == ChangeStatus::Unchanged),
{
    if forall|q: Seq<char>| c.in_union(q) ==> c.status(q) == ChangeStatus::Unchanged {
        assert forall|i: int| 0 <= i < entries.len() implies !(#[trigger] entries[i]).has_changes by {
            lemma_quiet_node(c, entries[i]);
        }
    }
    if forall|i: int| 0 <= i < entries.len() ==> !(#[trigger] entries[i]).has_changes {
        assert forall|q: Seq<char>| c.in_union(q) implies c.status(q) == ChangeStatus::Unchanged by {
            let n = lemma_node_at(c, entries, q);
        }
    }
}


/// A valid listing lists every path once.
proof fn lemma_distinct(listing: Seq<FsEntry>)
    requires
        listing_problem(listing) is None,
    ensures
        forall|i: int, j: int| 0 <= i < listing.len() && 0 <= j < listing.len() && i != j ==> (#[trigger] listing[i]).path@ != (#[trigger] listing[j]).path@,
{
    lemma_no_entry_problem(listing, 0);
    assert forall|i: int, j: int| 0 <= i < listing.len() && 0 <= j < listing.len() && i != j implies (#[trigger] listing[i]).path@ != (#[trigger] listing[j]).path@ by {
        if i < j {
            assert(entry_reason(listing, j) is None);
        } else {
            assert(entry_reason(listing, i) is None);
        }
    }
}

/// A path is listed exactly when it is among the listing's paths.
proof fn lemma_paths_of(listing: Seq<FsEntry>)
    ensures
        forall|q: Seq<char>| #[trigger] paths_of(listing).contains(q) <==> listed(listing, q),
{
    reveal(listed);
    assert forall|q: Seq<char>| #[trigger] paths_of(listing).contains(q) <==> listed(listing, q) by {
        if paths_of(listing).contains(q) {
            let i = choose|i: int| 0 <= i < paths_of(listing).len() && paths_of(listing)[i] == q;
            assert(listing[i].path@ == q);
        }
        if listed(listing, q) {
            let i = choose|i: int| 0 <= i < listing.len() && (#[trigger] listing[i]).path@ == q;
            assert(paths_of(listing)[i] == q);
        }
    }
}

/// A path is listed in a listing exactly when it is listed before its last entry or is
/// that entry's path.
proof fn lemma_listed_last(listing: Seq<FsEntry>, q: Seq<char>)
    requires
        listing.len() > 0,
    ensures
        listed(listing, q) <==> (listed(listing.drop_last(), q) || listing.last().path@ == q),
{
    reveal(listed);
    let rest = listing.drop_last();
    if listed(listing, q) {
        let i = choose|i: int| 0 <= i < listing.len() && (#[trigger] listing[i]).path@ == q;
        if i < rest.len() {
            assert(rest[i] == listing[i]);
        }
    }
    if listed(rest, q) {
        let i = choose|i: int| 0 <= i < rest.len() && (#[trigger] rest[i]).path@ == q;
        assert(listing[i] == rest[i]);
    }
    if listing.last().path@ == q {
        assert(listing[listing.len() - 1].path@ == q);
    }
}

/// The paths of `other` that `listing` does not list appear once each, and are just
/// those.
proof fn lemma_unlisted_paths(listing: Seq<FsEntry>, other: Seq<FsEntry>)
    requires
        forall|i: int, j: int| 0 <= i < other.len() && 0 <= j < other.len() && i != j ==> (#[trigger] other[i]).path@ != (#[trigger] other[j]).path@,
    ensures
        unlisted_paths(listing, other).no_duplicates(),
        forall|q: Seq<char>| #[trigger] unlisted_paths(listing, other).contains(q) <==> (listed(other, q) && !listed(listing, q)),
    decreases other.len(),
{
    if other.len() == 0 {
        reveal(listed);
    } else {
        let rest = other.drop_last();
        assert forall|i: int, j: int| 0 <= i < rest.len() && 0 <= j < rest.len() && i != j implies (#[trigger] rest[i]).path@ != (#[trigger] rest[j]).path@ by {
            assert(rest[i] == other[i] && rest[j] == other[j]);
        }
        lemma_unlisted_paths(listing, rest);
        let x = other.last().path@;
        let before = unlisted_paths(listing, rest);
        assert(!listed(rest, x)) by {
            reveal(listed);
            if listed(rest, x) {
                let i = choose|i: int| 0 <= i < rest.len() && (#[trigger] rest[i]).path@ == x;
                assert(other[i].path@ == other[other.len() - 1].path@);
            }
        }
        assert forall|q: Seq<char>| #[trigger] unlisted_paths(listing, other).contains(q) <==> (listed(other, q) && !listed(listing, q)) by {
            lemma_listed_last(other, q);
            if !listed(listing, x) {
                assert(before.push(x).contains(q) <==> (before.contains(q) || q == x)) by {
                    crate::order::lemma_push_contains(before, x);
                }
            }
        }
        if !listed(listing, x) {
            assert(!before.contains(x));
            assert forall|i: int, j: int| 0 <= i < before.push(x).len() && 0 <= j < before.push(x).len() && i != j implies before.push(x)[i] != before.push(x)[j] by {
                if i < before.len() && j < before.len() {
                    assert(before[i] != before[j]);
                } else if i < before.len() {
                    assert(before.contains(before[i]));
                } else if j < before.len() {
                    assert(before.contains(before[j]));
                }
            }
        }
    }
}

/// Each status's count over some paths adds up to how many paths there are.
proof fn lemma_count_total(c: Comparison, paths: Seq<Seq<char>>)
    ensures
        c.count(paths, ChangeStatus::Added) + c.count(paths, ChangeStatus::Deleted) + c.count(paths, ChangeStatus::Modified)
            + c.count(paths, ChangeStatus::Unchanged) + c.count(paths, ChangeStatus::Unknown) == paths.len(),
    decreases paths.len(),
{
    if paths.len() > 0 {
        lemma_count_total(c, paths.drop_last());
    }
}

/// The tally counts every listed path exactly once: the paths it counts appear once
/// each, are just the listed ones, and the counts add up to how many there are.
pub proof fn lemma_stats_total(c: Comparison, stats: FolderStats)
    requires
        c.valid(),
        c.stats_match(stats),
    ensures
        c.union_paths().no_duplicates(),
        forall|q: Seq<char>| #[trigger] c.union_paths().contains(q) <==> c.in_union(q),
        stats.added + stats.deleted + stats.modified + stats.unchanged + stats.unknown == c.union_paths().len(),
{
    lemma_union_paths(c);
    lemma_count_total(c, c.union_paths());
    assert(stats.of(ChangeStatus::Added) == stats.added);
    assert(stats.of(ChangeStatus::Deleted) == stats.deleted);
    assert(stats.of(ChangeStatus::Modified) == stats.modified);
    assert(stats.of(ChangeStatus::Unchanged) == stats.unchanged);
    assert(stats.of(ChangeStatus::Unknown) == stats.unknown);
}

/// Every listed path appears once among the union's paths, and nothing else does.
proof fn lemma_union_paths(c: Comparison)
    requires
        c.valid(),
    ensures
        c.union_paths().no_duplicates(),
        forall|q: Seq<char>| #[trigger] c.union_paths().contains(q) <==> c.in_union(q),
{
    let a = paths_of(c.left);
    let b = unlisted_paths(c.left, c.right);
    lemma_distinct(c.left);
    lemma_distinct(c.right);
    lemma_paths_of(c.left);
    lemma_unlisted_paths(c.left, c.right);
    assert forall|i: int, j: int| 0 <= i < (a + b).len() && 0 <= j < (a + b).len() && i != j implies (a + b)[i] != (a + b)[j] by {
        if i < a.len() && j < a.len() {
            assert(c.left[i].path@ != c.left[j].path@);
        } else if i >= a.len() && j >= a.len() {
            assert(b[i - a.len()] != b[j - a.len()]);
        } else if i < a.len() {
            assert(a.contains(a[i]));
            assert(b.contains(b[j - a.len()]));
        } else {
            assert(a.contains(a[j]));
            assert(b.contains(b[i - a.len()]));
        }
    }
    assert forall|q: Seq<char>| #[trigger] c.union_paths().contains(q) <==> c.in_union(q) by {
        if (a + b).contains(q) {
            let i = choose|i: int| 0 <= i < (a + b).len() && (a + b)[i] == q;
            if i < a.len() {
                assert(a.contains(q));
            } else {
                assert(b[i - a.len()] == q);
                assert(b.contains(q));
            }
        }
        if a.contains(q) {
            let i = choose|i: int| 0 <= i < a.len() && a[i] == q;
            assert((a + b)[i] == q);
        }
        if b.contains(q) {
            let i = choose|i: int| 0 <= i < b.len() && b[i] == q;
            assert((a + b)[a.len() + i] == q);
        }
    }
}


/// Being inside a folder is transitive.
proof fn lemma_below_trans(q: Seq<char>, r: Seq<char>, p: Seq<char>)
    requires
        is_below(q, r),
        is_below(r, p),
    ensures
        is_below(q, p),
{
    assert(q.subrange(0, p.len() as int) =~= q.subrange(0, r.len() as int).subrange(0, p.len() as int));
    assert(q[p.len() as int] == q.subrange(0, r.len() as int)[p.len() as int]);
}

/// The last `/` of a path is the one after which no other comes.
proof fn lemma_last_slash_at(s: Seq<char>, k: int)
    requires
        0 <= k < s.len(),
        s[k] == '/',
        forall|i: int| k < i < s.len() ==> s[i] != '/',
    ensures
        last_slash(s) == k,
{
    lemma_last_slash(s);
}

/// A path whose folder is a non-empty path is inside it.
proof fn lemma_child_below(q: Seq<char>, p: Seq<char>)
    requires
        parent_of(q) == p,
        p.len() > 0,
    ensures
        is_below(q, p),
{
    lemma_last_slash(q);
    assert(last_slash(q) == p.len());
    assert(q.subrange(0, p.len() as int) =~= p);
}

/// The entry directly inside `p` that holds a path inside `p`: the path cut after its
/// next segment.
proof fn lemma_next_step(p: Seq<char>, q: Seq<char>) -> (r: Seq<char>)
    requires
        is_below(q, p),
    ensures
        parent_of(r) == p,
        r == q || is_below(q, r),
{
    let n = p.len() as int;
    let rest = q.subrange(n + 1, q.len() as int);
    lemma_first_slash(rest);
    let f = first_slash(rest);
    let r = if f < 0 { q } else { q.subrange(0, n + 1 + f) };
    assert forall|i: int| n < i < r.len() implies r[i] != '/' by {
        assert(r[i] == rest[i - n - 1]);
    }
    assert(r[n] == '/');
    lemma_last_slash_at(r, n);
    assert(parent_of(r) =~= p);
    if f >= 0 {
        assert(q.subrange(0, r.len() as int) =~= r);
        assert(q[r.len() as int] == rest[f]);
    }
    r
}

/// A node has changes exactly when its path, or a listed path anywhere inside it, is
/// not unchanged.
pub proof fn lemma_has_changes(c: Comparison, node: TreeNode)
    requires
        c.valid(),
        c.node_ok(node),
    ensures
        node.has_changes <==> exists|q: Seq<char>|
            (q == node.path@ || is_below(q, node.path@)) && c.in_union(q) && #[trigger] c.status(q) != ChangeStatus::Unchanged,
    decreases node,
{
    let p = node.path@;
    let kids = node.children@;
    let side = if listed(c.left, p) { c.left } else { c.right };
    lemma_listed_valid(side, p);
    lemma_valid_start(p);
    if node.has_changes {
        if c.status(p) != ChangeStatus::Unchanged {
            assert(c.in_union(p));
        } else {
            let i = choose|i: int| 0 <= i < kids.len() && (#[trigger] kids[i]).has_changes;
            let child = kids[i];
            assert(c.node_ok(child));
            lemma_has_changes(c, child);
            let q = choose|q: Seq<char>|
                (q == child.path@ || is_below(q, child.path@)) && c.in_union(q) && #[trigger] c.status(q) != ChangeStatus::Unchanged;
            lemma_child_below(child.path@, p);
            if q != child.path@ {
                lemma_below_trans(q, child.path@, p);
            }
            assert(is_below(q, p) && c.in_union(q) && c.status(q) != ChangeStatus::Unchanged);
        }
    }
    if exists|q: Seq<char>| (q == p || is_below(q, p)) && c.in_union(q) && #[trigger] c.status(q) != ChangeStatus::Unchanged {
        let q = choose|q: Seq<char>| (q == p || is_below(q, p)) && c.in_union(q) && #[trigger] c.status(q) != ChangeStatus::Unchanged;
        if q != p {
            let r = lemma_next_step(p, q);
            let qside = if listed(c.left, q) { c.left } else { c.right };
            if r != q {
                lemma_ancestor_listed(qside, r, q);
            }
            assert(c.in_union(r));
            assert(c.children_shape(kids, p));
            let i = choose|i: int| 0 <= i < kids.len() && (#[trigger] kids[i]).path@ == r;
            let child = kids[i];
            assert(c.node_ok(child));
            lemma_has_changes(c, child);
            assert(child.has_changes);
        }
    }
}

/// The node reached from `nodes` by following child positions, one per level.
pub open spec fn node_at(nodes: Seq<TreeNode>, pos: Seq<int>) -> Option<TreeNode>
    decreases pos.len(),
{
    if pos.len() == 0 || !(0 <= pos[0] < nodes.len()) {
        None
    } else if pos.len() == 1 {
        Some(nodes[pos[0]])
    } else {
        node_at(nodes[pos[0]].children@, pos.drop_first())
    }
}

/// Well-formed nodes: the given nodes are the children of `parent`, each describing
/// its path.
pub open spec fn level_ok(c: Comparison, nodes: Seq<TreeNode>, parent: Seq<char>) -> bool {
    &&& c.children_shape(nodes, parent)
    &&& forall|i: int| 0 <= i < nodes.len() ==> c.node_ok(#[trigger] nodes[i])
}

/// A listed path is longer than the folder it is in; a path inside a folder has a
/// folder at least as long as that one.
proof fn lemma_below_parent(q: Seq<char>, p: Seq<char>)
    requires
        is_below(q, p),
    ensures
        parent_of(q).len() >= p.len(),
{
    lemma_last_slash(q);
}

/// A node found at some depth describes its path, and lies inside the top-level node
/// it was reached through.
proof fn lemma_at_ok(c: Comparison, nodes: Seq<TreeNode>, parent: Seq<char>, pos: Seq<int>)
    requires
        c.valid(),
        level_ok(c, nodes, parent),
        node_at(nodes, pos) is Some,
    ensures
        pos.len() >= 1,
        0 <= pos[0] < nodes.len(),
        c.node_ok(node_at(nodes, pos)->0),
        pos.len() == 1 ==> node_at(nodes, pos)->0 == nodes[pos[0]],
        pos.len() > 1 ==> is_below(node_at(nodes, pos)->0.path@, nodes[pos[0]].path@),
    decreases pos.len(),
{
    if pos.len() > 1 {
        let m = nodes[pos[0]];
        assert(c.node_ok(m));
        let rest = pos.drop_first();
        lemma_at_ok(c, m.children@, m.path@, rest);
        let n = node_at(nodes, pos)->0;
        let k = m.children@[rest[0]];
        let side = if listed(c.left, m.path@) { c.left } else { c.right };
        lemma_listed_valid(side, m.path@);
        lemma_valid_start(m.path@);
        assert(parent_of(k.path@) == m.path@);
        lemma_child_below(k.path@, m.path@);
        if rest.len() > 1 {
            lemma_below_trans(n.path@, k.path@, m.path@);
        }
    }
}

/// Two nodes of one level that describe the same path are the same node.
proof fn lemma_same_level(c: Comparison, nodes: Seq<TreeNode>, parent: Seq<char>, i: int, j: int)
    requires
        level_ok(c, nodes, parent),
        0 <= i < nodes.len(),
        0 <= j < nodes.len(),
        nodes[i].path@ == nodes[j].path@,
    ensures
        i == j,
{
    if i != j {
        let (a, b) = if i < j { (nodes[i], nodes[j]) } else { (nodes[j], nodes[i]) };
        assert(c.node_ok(nodes[i]) && c.node_ok(nodes[j]));
        assert(Comparison::node_before(a, b));
        crate::order::lemma_lex_irreflexive(lowercase(a.name@));
        crate::order::lemma_lex_irreflexive(a.name@);
    }
}

/// Two positions that reach nodes of the same path are the same position.
proof fn lemma_unique_position(c: Comparison, nodes: Seq<TreeNode>, parent: Seq<char>, pos1: Seq<int>, pos2: Seq<int>)
    requires
        c.valid(),
        level_ok(c, nodes, parent),
        node_at(nodes, pos1) is Some,
        node_at(nodes, pos2) is Some,
        node_at(nodes, pos1)->0.path@ == node_at(nodes, pos2)->0.path@,
    ensures
        pos1 == pos2,
    decreases pos1.len(),
{
    lemma_at_ok(c, nodes, parent, pos1);
    lemma_at_ok(c, nodes, parent, pos2);
    let p = node_at(nodes, pos1)->0.path@;
    let (i, j) = (pos1[0], pos2[0]);
    let (a, b) = (nodes[i].path@, nodes[j].path@);
    assert(c.node_ok(nodes[i]) && c.node_ok(nodes[j]));
    assert(parent_of(a) == parent && parent_of(b) == parent);
    let side_a = if listed(c.left, a) { c.left } else { c.right };
    let side_b = if listed(c.left, b) { c.left } else { c.right };
    lemma_listed_valid(side_a, a);
    lemma_listed_valid(side_b, b);
    crate::folder::lemma_last_slash(a);
    crate::folder::lemma_last_slash(b);
    lemma_valid_start(a);
    lemma_valid_start(b);
    assert(parent_of(a).len() < a.len() && parent_of(b).len() < b.len());
    if pos1.len() == 1 && pos2.len() > 1 {
        assert(is_below(a, b));
        lemma_below_parent(a, b);
        assert(false);
    } else if pos1.len() > 1 && pos2.len() == 1 {
        assert(is_below(b, a));
        lemma_below_parent(b, a);
        assert(false);
    } else if pos1.len() > 1 && pos2.len() > 1 && a != b {
        if a.len() <= b.len() {
            if a.len() == b.len() {
                assert(a =~= p.subrange(0, a.len() as int));
                assert(b =~= p.subrange(0, b.len() as int));
            } else {
                assert(b.subrange(0, a.len() as int) =~= p.subrange(0, a.len() as int));
                assert(b[a.len() as int] == p[a.len() as int]);
                lemma_below_parent(b, a);
            }
        } else {
            assert(a.subrange(0, b.len() as int) =~= p.subrange(0, b.len() as int));
            assert(a[b.len() as int] == p[b.len() as int]);
            lemma_below_parent(a, b);
        }
    }
    lemma_same_level(c, nodes, parent, i, j);
    if pos1.len() > 1 && pos2.len() > 1 {
        let m = nodes[i];
        assert(c.node_ok(m));
        lemma_unique_position(c, m.children@, m.path@, pos1.drop_first(), pos2.drop_first());
        assert(pos1.drop_first() == pos2.drop_first());
        assert(pos1.len() == pos2.len());
        assert forall|k: int| 0 <= k < pos1.len() implies pos1[k] == pos2[k] by {
            if k > 0 {
                assert(pos1[k] == pos1.drop_first()[k - 1]);
                assert(pos2[k] == pos2.drop_first()[k - 1]);
            }
        }
        assert(pos1 =~= pos2);
    } else {
        assert(pos1 =~= pos2);
    }
}

/// Following a position one level further.
proof fn lemma_at_push(nodes: Seq<TreeNode>, pos: Seq<int>, i: int)
    requires
        node_at(nodes, pos) is Some,
    ensures
        node_at(nodes, pos.push(i)) == node_at(node_at(nodes, pos)->0.children@, seq![i]),
    decreases pos.len(),
{
    if pos.len() > 1 {
        lemma_at_push(nodes[pos[0]].children@, pos.drop_first(), i);
        assert(pos.push(i).drop_first() =~= pos.drop_first().push(i));
    } else {
        assert(pos.push(i).drop_first() =~= seq![i]);
    }
}

/// Every listed path has a position in the tree.
proof fn lemma_position_of(c: Comparison, entries: Seq<TreeNode>, p: Seq<char>) -> (pos: Seq<int>)
    requires
        c.valid(),
        level_ok(c, entries, Seq::empty()),
        c.in_union(p),
    ensures
        node_at(entries, pos) matches Some(n) && n.path@ == p,
    decreases p.len(),
{
    let side = if listed(c.left, p) { c.left } else { c.right };
    lemma_listed_valid(side, p);
    lemma_valid_start(p);
    lemma_last_slash(p);
    let q = parent_of(p);
    if q.len() == 0 {
        assert(q =~= Seq::<char>::empty());
        let i = choose|i: int| 0 <= i < entries.len() && (#[trigger] entries[i]).path@ == p;
        seq![i]
    } else {
        let up = lemma_position_of(c, entries, q);
        lemma_at_ok(c, entries, Seq::empty(), up);
        let m = node_at(entries, up)->0;
        assert(c.children_shape(m.children@, q));
        let i = choose|i: int| 0 <= i < m.children@.len() && (#[trigger] m.children@[i]).path@ == p;
        lemma_at_push(entries, up, i);
        up.push(i)
    }
}

/// Every listed path is the path of exactly one node of the tree, at any depth, and
/// every node of the tree describes a listed path.
pub proof fn lemma_one_node_per_path(c: Comparison, entries: Seq<TreeNode>)
    requires
        c.valid(),
        c.children_shape(entries, Seq::empty()),
        forall|i: int| 0 <= i < entries.len() ==> c.node_ok(#[trigger] entries[i]),
    ensures
        forall|pos: Seq<int>| #[trigger] node_at(entries, pos) is Some
            ==> c.in_union(node_at(entries, pos)->0.path@) && c.node_ok(node_at(entries, pos)->0),
        forall|p: Seq<char>| c.in_union(p) ==> exists|pos: Seq<int>| #[trigger] node_at(entries, pos) matches Some(n) && n.path@ == p,
        forall|pos1: Seq<int>, pos2: Seq<int>|
            #[trigger] node_at(entries, pos1) is Some && #[trigger] node_at(entries, pos2) is Some
                && node_at(entries, pos1)->0.path@ == node_at(entries, pos2)->0.path@ ==> pos1 == pos2,
{
    assert forall|pos: Seq<int>| #[trigger] node_at(entries, pos) is Some
        implies c.in_union(node_at(entries, pos)->0.path@) && c.node_ok(node_at(entries, pos)->0) by {
        lemma_at_ok(c, entries, Seq::empty(), pos);
    }
    assert forall|p: Seq<char>| c.in_union(p) implies exists|pos: Seq<int>| #[trigger] node_at(entries, pos) matches Some(n) && n.path@ == p by {
        let pos = lemma_position_of(c, entries, p);
    }
    assert forall|pos1: Seq<int>, pos2: Seq<int>|
        #[trigger] node_at(entries, pos1) is Some && #[trigger] node_at(entries, pos2) is Some
            && node_at(entries, pos1)->0.path@ == node_at(entries, pos2)->0.path@ implies pos1 == pos2 by {
        lemma_unique_position(c, entries, Seq::empty(), pos1, pos2);
    }
}

/// Two listings hold the same entries, in any order.
pub open spec fn same_entries(a: Seq<FsEntry>, b: Seq<FsEntry>) -> bool {
    forall|e: FsEntry| a.contains(e) <==> b.contains(e)
}

/// Two job lists agree on every job's id, side, path and size.
pub open spec fn same_jobs(a: Seq<HashJob>, b: Seq<HashJob>) -> bool {
    &&& a.len() == b.len()
    &&& forall|k: int| 0 <= k < a.len() ==> {
        &&& (#[trigger] a[k]).id == b[k].id
        &&& a[k].side == b[k].side
        &&& a[k].path@ == b[k].path@
        &&& a[k].size == b[k].size
    }
}

/// Valid listings with the same entries list the same paths, each with the same entry.
proof fn lemma_same_lookup(l1: Seq<FsEntry>, l2: Seq<FsEntry>, p: Seq<char>)
    requires
        listing_problem(l1) is None,
        listing_problem(l2) is None,
        same_entries(l1, l2),
    ensures
        listed(l1, p) == listed(l2, p),
        listed(l1, p) ==> entry_at(l1, p) == entry_at(l2, p),
{
    lemma_distinct(l1);
    lemma_distinct(l2);
    if listed(l1, p) {
        let i = lemma_entry_at_member(l1, p);
        assert(l1.contains(l1[i]));
        let j = choose|j: int| 0 <= j < l2.len() && l2[j] == l1[i];
        crate::folder::lemma_entry_at(l2, j);
    }
    if listed(l2, p) {
        let j = lemma_entry_at_member(l2, p);
        assert(l2.contains(l2[j]));
        let i = choose|i: int| 0 <= i < l1.len() && l1[i] == l2[j];
        crate::folder::lemma_entry_at(l1, i);
    }
}

/// What the jobs must be depends on the listings' entries, not their order.
proof fn lemma_jobs_transfer(l1: Seq<FsEntry>, r1: Seq<FsEntry>, l2: Seq<FsEntry>, r2: Seq<FsEntry>, jobs: Seq<HashJob>)
    requires
        listing_problem(l1) is None,
        listing_problem(l2) is None,
        listing_problem(r1) is None,
        listing_problem(r2) is None,
        same_entries(l1, l2),
        same_entries(r1, r2),
        jobs_ok(l2, r2, jobs),
    ensures
        jobs_ok(l1, r1, jobs),
{
    lemma_needed_transfer(l1, r1, l2, r2, jobs);
    lemma_complete_transfer(l1, r1, l2, r2, jobs);
}

/// See [`lemma_jobs_transfer`]: every job is one that is needed.
#[verifier::spinoff_prover]
proof fn lemma_needed_transfer(l1: Seq<FsEntry>, r1: Seq<FsEntry>, l2: Seq<FsEntry>, r2: Seq<FsEntry>, jobs: Seq<HashJob>)
    requires
        listing_problem(l1) is None,
        listing_problem(l2) is None,
        listing_problem(r1) is None,
        listing_problem(r2) is None,
        same_entries(l1, l2),
        same_entries(r1, r2),
        jobs_needed(l2, r2, jobs),
    ensures
        jobs_needed(l1, r1, jobs),
{
    reveal(jobs_needed);
    assert forall|i: int| 0 <= i < jobs.len() && i % 2 == 0 implies {
        let p = (#[trigger] jobs[i]).path@;
        &&& jobs[i + 1].path@ == p
        &&& listed(l1, p)
        &&& listed(r1, p)
        &&& needs_hash(entry_at(l1, p), entry_at(r1, p))
        &&& jobs[i].size == entry_at(l1, p).size
        &&& jobs[i + 1].size == entry_at(l1, p).size
    } by {
        lemma_same_lookup(l1, l2, jobs[i].path@);
        lemma_same_lookup(r1, r2, jobs[i].path@);
    }
}

/// See [`lemma_jobs_transfer`]: every needed job is there.
#[verifier::spinoff_prover]
proof fn lemma_complete_transfer(l1: Seq<FsEntry>, r1: Seq<FsEntry>, l2: Seq<FsEntry>, r2: Seq<FsEntry>, jobs: Seq<HashJob>)
    requires
        listing_problem(l1) is None,
        listing_problem(l2) is None,
        listing_problem(r1) is None,
        listing_problem(r2) is None,
        same_entries(l1, l2),
        same_entries(r1, r2),
        jobs_complete(l2, r2, jobs),
    ensures
        jobs_complete(l1, r1, jobs),
{
    reveal(jobs_complete);
    assert forall|p: Seq<char>| listed(l1, p) && listed(r1, p) && needs_hash(entry_at(l1, p), entry_at(r1, p))
        implies exists|i: int| 0 <= i < jobs.len() && i % 2 == 0 && (#[trigger] jobs[i]).path@ == p by {
        lemma_same_lookup(l1, l2, p);
        lemma_same_lookup(r1, r2, p);
    }
}

/// Two strictly sorted lists of paths with the same paths are the same list.
proof fn lemma_sorted_unique(a: Seq<Seq<char>>, b: Seq<Seq<char>>)
    requires
        forall|i: int, j: int| 0 <= i < j < a.len() ==> lex_lt(#[trigger] a[i], #[trigger] a[j]),
        forall|i: int, j: int| 0 <= i < j < b.len() ==> lex_lt(#[trigger] b[i], #[trigger] b[j]),
        forall|x: Seq<char>| a.contains(x) <==> b.contains(x),
    ensures
        a == b,
    decreases a.len(),
{
    if a.len() == 0 {
        if b.len() > 0 {
            assert(b.contains(b[0]));
        }
        assert(a =~= b);
    } else {
        assert(a.contains(a[0]));
        assert(b.len() > 0);
        assert(b.contains(b[0]));
        let m = choose|m: int| 0 <= m < b.len() && b[m] == a[0];
        let k = choose|k: int| 0 <= k < a.len() && a[k] == b[0];
        if a[0] != b[0] {
            assert(m > 0 && k > 0);
            assert(lex_lt(a[0], a[k]));
            assert(lex_lt(b[0], b[m]));
            crate::order::lemma_lex_asymmetric(a[0], b[0]);
        }
        let (a2, b2) = (a.drop_first(), b.drop_first());
        assert forall|x: Seq<char>| a2.contains(x) <==> b2.contains(x) by {
            if a2.contains(x) {
                let i = choose|i: int| 0 <= i < a2.len() && a2[i] == x;
                assert(a[i + 1] == x && a.contains(x));
                let j = choose|j: int| 0 <= j < b.len() && b[j] == x;
                if j == 0 {
                    assert(lex_lt(a[0], a[i + 1]));
                    crate::order::lemma_lex_irreflexive(x);
                }
                assert(b2[j - 1] == x);
            }
            if b2.contains(x) {
                let j = choose|j: int| 0 <= j < b2.len() && b2[j] == x;
                assert(b[j + 1] == x && b.contains(x));
                let i = choose|i: int| 0 <= i < a.len() && a[i] == x;
                if i == 0 {
                    assert(lex_lt(b[0], b[j + 1]));
                    crate::order::lemma_lex_irreflexive(x);
                }
                assert(a2[i - 1] == x);
            }
        }
        assert forall|i: int, j: int| 0 <= i < j < a2.len() implies lex_lt(#[trigger] a2[i], #[trigger] a2[j]) by {
            assert(a2[i] == a[i + 1] && a2[j] == a[j + 1]);
        }
        assert forall|i: int, j: int| 0 <= i < j < b2.len() implies lex_lt(#[trigger] b2[i], #[trigger] b2[j]) by {
            assert(b2[i] == b[i + 1] && b2[j] == b[j + 1]);
        }
        lemma_sorted_unique(a2, b2);
        assert(a =~= b) by {
            assert forall|i: int| 0 <= i < a.len() implies a[i] == b[i] by {
                if i > 0 {
                    assert(a[i] == a2[i - 1] && b[i] == b2[i - 1]);
                }
            }
        }
    }
}

/// The paths of the left jobs, in order.
pub open spec fn job_paths(jobs: Seq<HashJob>) -> Seq<Seq<char>> {
    Seq::new(jobs.len() / 2, |k: int| jobs[2 * k].path@)
}

/// A path needs hashing: listed on both sides, readable files of equal size.
pub open spec fn needs_hash_at(l: Seq<FsEntry>, r: Seq<FsEntry>, p: Seq<char>) -> bool {
    listed(l, p) && listed(r, p) && needs_hash(entry_at(l, p), entry_at(r, p))
}

/// The left jobs' paths are strictly sorted.
proof fn lemma_job_paths_sorted(j: Seq<HashJob>)
    requires
        jobs_sorted(j),
    ensures
        forall|i: int, k: int| 0 <= i < k < job_paths(j).len() ==> lex_lt(#[trigger] job_paths(j)[i], #[trigger] job_paths(j)[k]),
{
    reveal(jobs_sorted);
    let a = job_paths(j);
    assert forall|i: int, k: int| 0 <= i < k < a.len() implies lex_lt(#[trigger] a[i], #[trigger] a[k]) by {
        assert(a[i] == j[2 * i].path@ && a[k] == j[2 * k].path@);
    }
}

/// The left jobs' paths are just the paths needing hashing.
#[verifier::rlimit(40)]
proof fn lemma_job_paths_needed(l: Seq<FsEntry>, r: Seq<FsEntry>, j: Seq<HashJob>)
    requires
        jobs_numbered(j),
        jobs_needed(l, r, j),
        jobs_complete(l, r, j),
    ensures
        forall|x: Seq<char>| #[trigger] job_paths(j).contains(x) <==> needs_hash_at(l, r, x),
{
    let a = job_paths(j);
    assert forall|x: Seq<char>| #[trigger] a.contains(x) <==> needs_hash_at(l, r, x) by {
        if a.contains(x) {
            reveal(jobs_needed);
            let i = choose|i: int| 0 <= i < a.len() && a[i] == x;
            assert(j[2 * i].path@ == x);
        }
        if needs_hash_at(l, r, x) {
            reveal(jobs_complete);
            reveal(jobs_numbered);
            let k = choose|k: int| 0 <= k < j.len() && k % 2 == 0 && (#[trigger] j[k]).path@ == x;
            assert(2 * (k / 2) == k);
            assert(k / 2 < a.len());
            assert(a[k / 2] == x);
        }
    }
}

/// One job is fixed by its position and the left jobs' paths.
#[verifier::rlimit(40)]
proof fn lemma_job_at(l: Seq<FsEntry>, r: Seq<FsEntry>, j: Seq<HashJob>, k: int)
    requires
        jobs_numbered(j),
        jobs_needed(l, r, j),
        0 <= k < j.len(),
    ensures
        j.len() == 2 * job_paths(j).len(),
        j[k].id == k,
        j[k].side == if k % 2 == 0 { crate::folder::Side::Left } else { crate::folder::Side::Right },
        j[k].path@ == job_paths(j)[k / 2],
        j[k].size == entry_at(l, j[k].path@).size,
{
    reveal(jobs_numbered);
    assert(j[k].id == k);
    let e = if k % 2 == 0 { k } else { k - 1 };
    assert(2 * (k / 2) == e);
    assert(job_paths(j)[k / 2] == j[e].path@);
    assert(e % 2 == 0);
    reveal(jobs_needed);
    assert(j[e + 1].path@ == j[e].path@);
}

/// Every job is fixed by its position and the left jobs' paths.
proof fn lemma_job_paths_jobs(l: Seq<FsEntry>, r: Seq<FsEntry>, j: Seq<HashJob>)
    requires
        jobs_numbered(j),
        jobs_needed(l, r, j),
    ensures
        j.len() == 2 * job_paths(j).len(),
        forall|k: int| 0 <= k < j.len() ==> {
            &&& (#[trigger] j[k]).id == k
            &&& j[k].side == if k % 2 == 0 { crate::folder::Side::Left } else { crate::folder::Side::Right }
            &&& j[k].path@ == job_paths(j)[k / 2]
            &&& j[k].size == entry_at(l, j[k].path@).size
        },
{
    assert(j.len() == 2 * job_paths(j).len()) by {
        reveal(jobs_numbered);
    }
    assert forall|k: int| 0 <= k < j.len() implies {
        &&& (#[trigger] j[k]).id == k
        &&& j[k].side == if k % 2 == 0 { crate::folder::Side::Left } else { crate::folder::Side::Right }
        &&& j[k].path@ == job_paths(j)[k / 2]
        &&& j[k].size == entry_at(l, j[k].path@).size
    } by {
        lemma_job_at(l, r, j, k);
    }
}

/// The jobs for two listings are determined by the listings.
proof fn lemma_jobs_unique(l: Seq<FsEntry>, r: Seq<FsEntry>, j1: Seq<HashJob>, j2: Seq<HashJob>)
    requires
        jobs_ok(l, r, j1),
        jobs_ok(l, r, j2),
    ensures
        same_jobs(j1, j2),
{
    lemma_job_paths_sorted(j1);
    lemma_job_paths_sorted(j2);
    lemma_job_paths_needed(l, r, j1);
    lemma_job_paths_needed(l, r, j2);
    lemma_job_paths_jobs(l, r, j1);
    lemma_job_paths_jobs(l, r, j2);
    let (a, b) = (job_paths(j1), job_paths(j2));
    assert forall|x: Seq<char>| a.contains(x) <==> b.contains(x) by {
        assert(a.contains(x) <==> needs_hash_at(l, r, x));
        assert(b.contains(x) <==> needs_hash_at(l, r, x));
    }
    lemma_sorted_unique(a, b);
    assert forall|k: int| 0 <= k < j1.len() implies {
        &&& (#[trigger] j1[k]).id == j2[k].id
        &&& j1[k].side == j2[k].side
        &&& j1[k].path@ == j2[k].path@
        &&& j1[k].size == j2[k].size
    } by {
        assert(j1[k].path@ == a[k / 2]);
        assert(j2[k].path@ == b[k / 2]);
    }
}

/// Whether a path is listed and how each side judges it depend on the listings'
/// entries, not their order, given the same jobs answered the same way.
proof fn lemma_reorder_path(c1: Comparison, c2: Comparison, p: Seq<char>)
    requires
        c1.valid(),
        c2.valid(),
        same_entries(c1.left, c2.left),
        same_entries(c1.right, c2.right),
        c1.jobs_ok(),
        c2.jobs_ok(),
        same_jobs(c1.jobs, c2.jobs),
        c1.outcomes == c2.outcomes,
    ensures
        c1.in_union(p) == c2.in_union(p),
        Comparison::kind_in(c1.left, p) == Comparison::kind_in(c2.left, p),
        Comparison::kind_in(c1.right, p) == Comparison::kind_in(c2.right, p),
        c1.in_union(p) ==> c1.outcome(p) == c2.outcome(p),
{
    lemma_same_lookup(c1.left, c2.left, p);
    lemma_same_lookup(c1.right, c2.right, p);
    if exists|i: int| 0 <= i < c1.jobs.len() && i % 2 == 0 && (#[trigger] c1.jobs[i]).path@ == p {
        let i = choose|i: int| 0 <= i < c1.jobs.len() && i % 2 == 0 && (#[trigger] c1.jobs[i]).path@ == p;
        lemma_job_of(c1, i);
        assert(c2.jobs[i].path@ == p);
        lemma_job_of(c2, i);
    } else {
        assert(c1.job_of(p) is None);
        if exists|i: int| 0 <= i < c2.jobs.len() && i % 2 == 0 && (#[trigger] c2.jobs[i]).path@ == p {
            let i = choose|i: int| 0 <= i < c2.jobs.len() && i % 2 == 0 && (#[trigger] c2.jobs[i]).path@ == p;
            assert(c1.jobs[i].path@ == p);
        }
        assert(c2.job_of(p) is None);
    }
}

/// A node is judged alike under both comparisons.
proof fn lemma_reorder_node(c1: Comparison, c2: Comparison, node: TreeNode)
    requires
        c1.valid(),
        c2.valid(),
        same_entries(c1.left, c2.left),
        same_entries(c1.right, c2.right),
        c1.jobs_ok(),
        c2.jobs_ok(),
        same_jobs(c1.jobs, c2.jobs),
        c1.outcomes == c2.outcomes,
    ensures
        c1.node_ok(node) == c2.node_ok(node),
    decreases node,
{
    let p = node.path@;
    let kids = node.children@;
    lemma_reorder_path(c1, c2, p);
    assert forall|i: int| 0 <= i < kids.len() implies c1.node_ok(#[trigger] kids[i]) == c2.node_ok(kids[i]) by {
        lemma_reorder_node(c1, c2, kids[i]);
    }
    lemma_reorder_level(c1, c2, kids, p);
}

/// A level of the tree is judged alike under both comparisons.
proof fn lemma_reorder_level(c1: Comparison, c2: Comparison, nodes: Seq<TreeNode>, parent: Seq<char>)
    requires
        c1.valid(),
        c2.valid(),
        same_entries(c1.left, c2.left),
        same_entries(c1.right, c2.right),
        c1.jobs_ok(),
        c2.jobs_ok(),
        same_jobs(c1.jobs, c2.jobs),
        c1.outcomes == c2.outcomes,
    ensures
        c1.children_shape(nodes, parent) == c2.children_shape(nodes, parent),
{
    assert forall|q: Seq<char>| c1.in_union(q) == c2.in_union(q) by {
        lemma_reorder_path(c1, c2, q);
    }
}

/// Reordering either listing changes nothing: the jobs handed out agree in id, side,
/// path and size, and, those jobs answered the same way, every path is listed, judged
/// and placed alike, so the same tree describes both comparisons.
pub proof fn lemma_reorder(c1: Comparison, c2: Comparison)
    requires
        c1.valid(),
        c2.valid(),
        same_entries(c1.left, c2.left),
        same_entries(c1.right, c2.right),
        c1.jobs_ok(),
        c2.jobs_ok(),
        c1.outcomes == c2.outcomes,
    ensures
        same_jobs(c1.jobs, c2.jobs),
        forall|p: Seq<char>| #[trigger] c1.in_union(p) == c2.in_union(p),
        forall|p: Seq<char>| c1.in_union(p) ==> #[trigger] c1.outcome(p) == c2.outcome(p),
        forall|node: TreeNode| #[trigger] c1.node_ok(node) == c2.node_ok(node),
        forall|nodes: Seq<TreeNode>, parent: Seq<char>| #[trigger] c1.children_shape(nodes, parent) == c2.children_shape(nodes, parent),
{
    lemma_jobs_transfer(c1.left, c1.right, c2.left, c2.right, c2.jobs);
    lemma_jobs_unique(c1.left, c1.right, c1.jobs, c2.jobs);
    assert forall|p: Seq<char>| #[trigger] c1.in_union(p) == c2.in_union(p) by {
        lemma_reorder_path(c1, c2, p);
    }
    assert forall|p: Seq<char>| c1.in_union(p) implies #[trigger] c1.outcome(p) == c2.outcome(p) by {
        lemma_reorder_path(c1, c2, p);
    }
    assert forall|node: TreeNode| #[trigger] c1.node_ok(node) == c2.node_ok(node) by {
        lemma_reorder_node(c1, c2, node);
    }
    assert forall|nodes: Seq<TreeNode>, parent: Seq<char>| #[trigger] c1.children_shape(nodes, parent) == c2.children_shape(nodes, parent) by {
        lemma_reorder_level(c1, c2, nodes, parent);
    }
}

/// The paths of a node and of everything below it, the node's own first.
pub open spec fn subtree_paths(n: TreeNode) -> Seq<Seq<char>>
    decreases n, 0int,
{
    seq![n.path@] + forest_paths(n.children@, n.children@.len() as int)
}

/// The paths of the first `k` nodes and of everything below them, node by node.
pub open spec fn forest_paths(nodes: Seq<TreeNode>, k: int) -> Seq<Seq<char>>
    decreases nodes, k,
{
    if k <= 0 || k > nodes.len() {
        Seq::empty()
    } else {
        forest_paths(nodes, k - 1) + subtree_paths(nodes[k - 1])
    }
}

/// `x` is the path `p` or a path inside it.
pub open spec fn at_or_below(x: Seq<char>, p: Seq<char>) -> bool {
    x == p || is_below(x, p)
}

/// Nothing is at or below two different valid paths of the same folder.
proof fn lemma_disjoint_siblings(a: Seq<char>, b: Seq<char>, x: Seq<char>)
    requires
        a != b,
        parent_of(a) == parent_of(b),
        path_reason(a) is None,
        path_reason(b) is None,
    ensures
        !(at_or_below(x, a) && at_or_below(x, b)),
{
    if at_or_below(x, a) && at_or_below(x, b) {
        lemma_disjoint_shared(a, b, x);
    }
}

/// The case of [`lemma_disjoint_siblings`] where `x` is at or below both paths.
proof fn lemma_disjoint_shared(a: Seq<char>, b: Seq<char>, x: Seq<char>)
    requires
        a != b,
        parent_of(a) == parent_of(b),
        path_reason(a) is None,
        path_reason(b) is None,
        at_or_below(x, a),
        at_or_below(x, b),
    ensures
        a == b,
{
    lemma_last_slash(a);
    lemma_last_slash(b);
    lemma_valid_start(a);
    lemma_valid_start(b);
    assert(parent_of(a).len() < a.len() && parent_of(b).len() < b.len());
    if x == a {
        lemma_below_parent(a, b);
    } else if x == b {
        lemma_below_parent(b, a);
    } else if a.len() == b.len() {
        assert(a =~= x.subrange(0, a.len() as int));
        assert(b =~= x.subrange(0, b.len() as int));
    } else if a.len() < b.len() {
        assert(b.subrange(0, a.len() as int) =~= x.subrange(0, a.len() as int));
        assert(b[a.len() as int] == x[a.len() as int]);
        lemma_below_parent(b, a);
    } else {
        assert(a.subrange(0, b.len() as int) =~= x.subrange(0, b.len() as int));
        assert(a[b.len() as int] == x[b.len() as int]);
        lemma_below_parent(a, b);
    }
}

/// What a node's and its level's path lists hold: every path at most once, each a
/// listed path at or below the node (or one of the level's nodes), and every such path.
pub proof fn lemma_subtree_paths(c: Comparison, n: TreeNode)
    requires
        c.valid(),
        c.node_ok(n),
    ensures
        subtree_paths(n).no_duplicates(),
        forall|x: Seq<char>| #[trigger] subtree_paths(n).contains(x) <==> (c.in_union(x) && at_or_below(x, n.path@)),
    decreases n, 0int,
{
    let p = n.path@;
    let kids = n.children@;
    let side = if listed(c.left, p) { c.left } else { c.right };
    lemma_listed_valid(side, p);
    lemma_valid_start(p);
    lemma_forest_paths(c, kids, p, kids.len() as int);
    let f = forest_paths(kids, kids.len() as int);
    let sp = subtree_paths(n);
    assert(sp == seq![p] + f);
    assert forall|x: Seq<char>| f.contains(x) implies is_below(x, p) by {
        let i = choose|i: int| 0 <= i < kids.len() && at_or_below(x, kids[i].path@);
        assert(c.node_ok(kids[i]));
        lemma_child_below(kids[i].path@, p);
        if x != kids[i].path@ {
            lemma_below_trans(x, kids[i].path@, p);
        }
    }
    assert forall|x: Seq<char>| #[trigger] sp.contains(x) <==> (c.in_union(x) && at_or_below(x, p)) by {
        if sp.contains(x) {
            let k = choose|k: int| 0 <= k < sp.len() && sp[k] == x;
            if k > 0 {
                assert(f[k - 1] == x);
                assert(f.contains(x));
            }
        }
        if c.in_union(x) && at_or_below(x, p) {
            if x == p {
                assert(sp[0] == x);
            } else {
                let r = lemma_next_step(p, x);
                let xside = if listed(c.left, x) { c.left } else { c.right };
                if r != x {
                    lemma_ancestor_listed(xside, r, x);
                }
                let i = choose|i: int| 0 <= i < kids.len() && (#[trigger] kids[i]).path@ == r;
                assert(at_or_below(x, kids[i].path@));
                assert(f.contains(x));
                let k = choose|k: int| 0 <= k < f.len() && f[k] == x;
                assert(sp[k + 1] == x);
            }
        }
    }
    assert forall|i: int, j: int| 0 <= i < sp.len() && 0 <= j < sp.len() && i != j implies sp[i] != sp[j] by {
        if i > 0 && j > 0 {
            assert(sp[i] == f[i - 1] && sp[j] == f[j - 1]);
        } else if i == 0 {
            assert(sp[j] == f[j - 1] && f.contains(f[j - 1]));
        } else {
            assert(sp[i] == f[i - 1] && f.contains(f[i - 1]));
        }
    }
}

/// See [`lemma_subtree_paths`]: the same for the first `k` nodes of a level.
pub proof fn lemma_forest_paths(c: Comparison, nodes: Seq<TreeNode>, parent: Seq<char>, k: int)
    requires
        c.valid(),
        level_ok(c, nodes, parent),
        0 <= k <= nodes.len(),
    ensures
        forest_paths(nodes, k).no_duplicates(),
        forall|x: Seq<char>| #[trigger] forest_paths(nodes, k).contains(x)
            <==> (c.in_union(x) && exists|i: int| 0 <= i < k && at_or_below(x, (#[trigger] nodes[i]).path@)),
    decreases nodes, k,
{
    if k > 0 {
        let m = nodes[k - 1];
        assert(c.node_ok(m));
        lemma_forest_paths(c, nodes, parent, k - 1);
        lemma_subtree_paths(c, m);
        let a = forest_paths(nodes, k - 1);
        let b = subtree_paths(m);
        let f = forest_paths(nodes, k);
        assert(f == a + b);
        assert forall|x: Seq<char>| #[trigger] f.contains(x)
            <==> (c.in_union(x) && exists|i: int| 0 <= i < k && at_or_below(x, (#[trigger] nodes[i]).path@)) by {
            if f.contains(x) {
                let t = choose|t: int| 0 <= t < f.len() && f[t] == x;
                if t < a.len() {
                    assert(a[t] == x && a.contains(x));
                } else {
                    assert(b[t - a.len()] == x && b.contains(x));
                    assert(at_or_below(x, nodes[k - 1].path@));
                }
            }
            if c.in_union(x) && exists|i: int| 0 <= i < k && at_or_below(x, (#[trigger] nodes[i]).path@) {
                let i = choose|i: int| 0 <= i < k && at_or_below(x, (#[trigger] nodes[i]).path@);
                if i < k - 1 {
                    assert(a.contains(x));
                    let t = choose|t: int| 0 <= t < a.len() && a[t] == x;
                    assert(f[t] == x);
                } else {
                    assert(b.contains(x));
                    let t = choose|t: int| 0 <= t < b.len() && b[t] == x;
                    assert(f[a.len() + t] == x);
                }
            }
        }
        assert forall|i: int, j: int| 0 <= i < f.len() && 0 <= j < f.len() && i != j implies f[i] != f[j] by {
            if i < a.len() && j < a.len() {
                assert(f[i] == a[i] && f[j] == a[j]);
            } else if i >= a.len() && j >= a.len() {
                assert(f[i] == b[i - a.len()] && f[j] == b[j - a.len()]);
            } else {
                let (u, v) = if i < a.len() { (i, j) } else { (j, i) };
                let x = f[u];
                assert(f[u] == a[u] && a.contains(x));
                assert(f[v] == b[v - a.len()] && b.contains(f[v]));
                if x == f[v] {
                    let q = choose|q: int| 0 <= q < k - 1 && at_or_below(x, (#[trigger] nodes[q]).path@);
                    assert(c.node_ok(nodes[q]));
                    lemma_same_level_paths(c, nodes, parent, q, k - 1);
                    let sa = if listed(c.left, nodes[q].path@) { c.left } else { c.right };
                    let sb = if listed(c.left, m.path@) { c.left } else { c.right };
                    lemma_listed_valid(sa, nodes[q].path@);
                    lemma_listed_valid(sb, m.path@);
                    lemma_disjoint_siblings(nodes[q].path@, m.path@, x);
                }
            }
        }
    }
}

/// Two nodes of one level at different places have different paths.
proof fn lemma_same_level_paths(c: Comparison, nodes: Seq<TreeNode>, parent: Seq<char>, i: int, j: int)
    requires
        level_ok(c, nodes, parent),
        0 <= i < nodes.len(),
        0 <= j < nodes.len(),
        i != j,
    ensures
        nodes[i].path@ != nodes[j].path@,
        parent_of(nodes[i].path@) == parent,
        parent_of(nodes[j].path@) == parent,
{
    if nodes[i].path@ == nodes[j].path@ {
        lemma_same_level(c, nodes, parent, i, j);
    }
}

/// Every listed path is inside, or is, a listed top-level path.
proof fn lemma_top_ancestor(c: Comparison, x: Seq<char>) -> (r: Seq<char>)
    requires
        c.valid(),
        c.in_union(x),
    ensures
        c.in_union(r),
        parent_of(r).len() == 0,
        at_or_below(x, r),
    decreases x.len(),
{
    let side = if listed(c.left, x) { c.left } else { c.right };
    lemma_listed_valid(side, x);
    lemma_valid_start(x);
    lemma_last_slash(x);
    let q = parent_of(x);
    if q.len() == 0 {
        x
    } else {
        let r = lemma_top_ancestor(c, q);
        lemma_child_below(x, q);
        if q != r {
            lemma_below_trans(x, q, r);
        }
        r
    }
}

/// Counting by status over paths that all appear, once each, in a second list of
/// paths, each once, gives no more than counting over the second list.
proof fn lemma_count_subset(c: Comparison, a: Seq<Seq<char>>, b: Seq<Seq<char>>, s: ChangeStatus)
    requires
        a.no_duplicates(),
        b.no_duplicates(),
        forall|x: Seq<char>| a.contains(x) ==> b.contains(x),
    ensures
        c.count(a, s) <= c.count(b, s),
    decreases a.len(),
{
    if a.len() == 0 {
        lemma_count_nonneg(c, b, s);
    } else {
        let x = a.last();
        let a2 = a.drop_last();
        assert(a.contains(x));
        let i = choose|i: int| 0 <= i < b.len() && b[i] == x;
        let b2 = b.remove(i);
        assert forall|y: Seq<char>| a2.contains(y) implies b2.contains(y) by {
            let t = choose|t: int| 0 <= t < a2.len() && a2[t] == y;
            assert(a[t] == y && a.contains(y));
            let u = choose|u: int| 0 <= u < b.len() && b[u] == y;
            assert(y != x);
            assert(u != i);
            if u < i {
                assert(b2[u] == y);
            } else {
                assert(b2[u - 1] == y);
            }
        }
        assert forall|p: int, q: int| 0 <= p < a2.len() && 0 <= q < a2.len() && p != q implies a2[p] != a2[q] by {
            assert(a2[p] == a[p] && a2[q] == a[q]);
        }
        assert forall|p: int, q: int| 0 <= p < b2.len() && 0 <= q < b2.len() && p != q implies b2[p] != b2[q] by {
            let p2 = if p < i { p } else { p + 1 };
            let q2 = if q < i { q } else { q + 1 };
            assert(b2[p] == b[p2] && b2[q] == b[q2]);
        }
        lemma_count_subset(c, a2, b2, s);
        let front = b.subrange(0, i);
        let back = b.subrange(i + 1, b.len() as int);
        assert(b =~= front + seq![x] + back);
        assert(b2 =~= front + back);
        crate::folder::lemma_count_concat(c, front + seq![x], back, s);
        crate::folder::lemma_count_concat(c, front, seq![x], s);
        crate::folder::lemma_count_concat(c, front, back, s);
        assert(seq![x].drop_last() =~= Seq::<Seq<char>>::empty());
        assert(c.count(Seq::<Seq<char>>::empty(), s) == 0);
        let cx: int = if c.status(x) == s { 1 } else { 0 };
        assert(c.count(seq![x], s) == cx);
        assert(a.drop_last() =~= a2);
        assert(c.count(a, s) == c.count(a2, s) + cx);
        assert(c.count(b, s) == c.count(front, s) + cx + c.count(back, s));
        assert(c.count(b2, s) == c.count(front, s) + c.count(back, s));
    }
}

/// A count is never negative.
proof fn lemma_count_nonneg(c: Comparison, a: Seq<Seq<char>>, s: ChangeStatus)
    ensures
        0 <= c.count(a, s) <= a.len(),
    decreases a.len(),
{
    if a.len() > 0 {
        lemma_count_nonneg(c, a.drop_last(), s);
    }
}

/// Counting by status over two lists that hold the same paths, each once, gives the
/// same counts.
proof fn lemma_count_same_paths(c: Comparison, a: Seq<Seq<char>>, b: Seq<Seq<char>>, s: ChangeStatus)
    requires
        a.no_duplicates(),
        b.no_duplicates(),
        forall|x: Seq<char>| a.contains(x) <==> b.contains(x),
    ensures
        c.count(a, s) == c.count(b, s),
{
    lemma_count_subset(c, a, b, s);
    lemma_count_subset(c, b, a, s);
}

/// No path of the list has the status: none is counted.
proof fn lemma_count_none(c: Comparison, a: Seq<Seq<char>>, s: ChangeStatus)
    requires
        forall|i: int| 0 <= i < a.len() ==> c.status(#[trigger] a[i]) != s,
    ensures
        c.count(a, s) == 0,
    decreases a.len(),
{
    if a.len() > 0 {
        lemma_count_none(c, a.drop_last(), s);
    }
}

/// The right-only paths are no more than the right listing's entries.
proof fn lemma_unlisted_len(listing: Seq<FsEntry>, other: Seq<FsEntry>)
    ensures
        unlisted_paths(listing, other).len() <= other.len(),
    decreases other.len(),
{
    if other.len() > 0 {
        lemma_unlisted_len(listing, other.drop_last());
    }
}

/// Counting a status over listed paths, each once, gives at most the right listing's
/// length for added paths, and at most the left listing's for the others: a tally of
/// them fits where the listings do.
pub proof fn lemma_count_fits(c: Comparison, f: Seq<Seq<char>>, s: ChangeStatus)
    requires
        c.valid(),
        f.no_duplicates(),
        forall|x: Seq<char>| f.contains(x) ==> c.in_union(x),
    ensures
        c.count(f, s) <= if s == ChangeStatus::Added { c.right.len() } else { c.left.len() },
{
    let a = paths_of(c.left);
    let b = unlisted_paths(c.left, c.right);
    lemma_union_paths(c);
    lemma_count_subset(c, f, c.union_paths(), s);
    crate::folder::lemma_count_concat(c, a, b, s);
    lemma_paths_of(c.left);
    lemma_distinct(c.right);
    lemma_unlisted_paths(c.left, c.right);
    lemma_unlisted_len(c.left, c.right);
    lemma_count_nonneg(c, a, s);
    lemma_count_nonneg(c, b, s);
    if s == ChangeStatus::Added {
        assert forall|i: int| 0 <= i < a.len() implies c.status(#[trigger] a[i]) != s by {
            assert(a.contains(a[i]));
        }
        lemma_count_none(c, a, s);
    } else {
        assert forall|i: int| 0 <= i < b.len() implies c.status(#[trigger] b[i]) != s by {
            assert(b.contains(b[i]));
        }
        lemma_count_none(c, b, s);
    }
}

/// The paths of the top-level nodes and everything below them are the listed paths,
/// each once, so counting a status over them counts it over every listed path.
pub proof fn lemma_tree_paths(c: Comparison, entries: Seq<TreeNode>)
    requires
        c.valid(),
        level_ok(c, entries, Seq::empty()),
    ensures
        forest_paths(entries, entries.len() as int).no_duplicates(),
        forall|x: Seq<char>| #[trigger] forest_paths(entries, entries.len() as int).contains(x) <==> c.in_union(x),
        forall|s: ChangeStatus| #[trigger] c.count(forest_paths(entries, entries.len() as int), s) == c.count(c.union_paths(), s),
{
    let f = forest_paths(entries, entries.len() as int);
    lemma_forest_paths(c, entries, Seq::empty(), entries.len() as int);
    assert forall|x: Seq<char>| #[trigger] f.contains(x) <==> c.in_union(x) by {
        if c.in_union(x) {
            let r = lemma_top_ancestor(c, x);
            assert(parent_of(r) =~= Seq::<char>::empty());
            let i = choose|i: int| 0 <= i < entries.len() && (#[trigger] entries[i]).path@ == r;
            assert(at_or_below(x, entries[i].path@));
        }
    }
    lemma_union_paths(c);
    assert forall|s: ChangeStatus| #[trigger] c.count(f, s) == c.count(c.union_paths(), s) by {
        lemma_count_same_paths(c, c.union_paths(), f, s);
    }
}

/// The tally counts the nodes of the tree by status: every node's path appears once
/// among the tree's paths, and the counts over them are the tally's.
pub proof fn lemma_stats_count_nodes(c: Comparison, entries: Seq<TreeNode>, stats: crate::folder::FolderStats)
    requires
        c.valid(),
        level_ok(c, entries, Seq::empty()),
        c.stats_match(stats),
    ensures
        forest_paths(entries, entries.len() as int).no_duplicates(),
        forall|x: Seq<char>| #[trigger] forest_paths(entries, entries.len() as int).contains(x) <==> c.in_union(x),
        forall|s: ChangeStatus| #[trigger] stats.of(s) == c.count(forest_paths(entries, entries.len() as int), s),
{
    lemma_tree_paths(c, entries);
}

/// Every path listed on both sides as a readable file of the same size gets a pair of
/// hash jobs, whatever else differs, a left one and then a right one. When both digests
/// were recorded and the files are of the same type, the content is a reason for the
/// change exactly when the digests differ, and then the file is modified.
pub proof fn lemma_equal_size_files_hashed(c: Comparison, p: Seq<char>)
    requires
        c.jobs_ok(),
        listed(c.left, p),
        listed(c.right, p),
        entry_at(c.left, p).error is None,
        entry_at(c.right, p).error is None,
        entry_at(c.left, p).kind == EntryKind::File,
        entry_at(c.right, p).kind == EntryKind::File,
        entry_at(c.left, p).size == entry_at(c.right, p).size,
    ensures
        c.job_of(p) is Some,
        c.job_of(p) matches Some(i) && {
            &&& 0 <= i && i + 1 < c.jobs.len()
            &&& c.jobs[i].path@ == p && c.jobs[i + 1].path@ == p
            &&& c.jobs[i].side == Side::Left && c.jobs[i + 1].side == Side::Right
            &&& c.jobs[i].id == i && c.jobs[i + 1].id == i + 1
        },
        (entry_at(c.left, p).mode & S_IFMT) == (entry_at(c.right, p).mode & S_IFMT) ==> (c.job_of(p) matches Some(i)
            ==> (c.outcomes[i] matches Some(Ok(a)) ==> (c.outcomes[i + 1] matches Some(Ok(b)) ==> {
                &&& c.outcome(p).1.contains(ChangeReason::Content) <==> a != b
                &&& a != b ==> c.outcome(p).0 == ChangeStatus::Modified
                &&& c.outcome(p).2 is None
            }))),
{
    let l = entry_at(c.left, p);
    let r = entry_at(c.right, p);
    lemma_hash_job_pair(c, p);
    let i = c.job_of(p)->0;
    if (l.mode & S_IFMT) == (r.mode & S_IFMT) && c.outcomes[i] is Some && c.outcomes[i]->0 is Ok
        && c.outcomes[i + 1] is Some && c.outcomes[i + 1]->0 is Ok {
        let a = c.outcomes[i]->0->Ok_0;
        let b = c.outcomes[i + 1]->0->Ok_0;
        assert(c.content(p, l, r) == Ok::<bool, Seq<char>>(a != b));
        lemma_content_reason(c, p, l, r, a != b);
    }
}

/// The job pair of [`lemma_equal_size_files_hashed`].
proof fn lemma_hash_job_pair(c: Comparison, p: Seq<char>)
    requires
        c.jobs_ok(),
        listed(c.left, p),
        listed(c.right, p),
        entry_at(c.left, p).error is None,
        entry_at(c.right, p).error is None,
        entry_at(c.left, p).kind == EntryKind::File,
        entry_at(c.right, p).kind == EntryKind::File,
        entry_at(c.left, p).size == entry_at(c.right, p).size,
    ensures
        c.job_of(p) matches Some(i) && {
            &&& 0 <= i && i + 1 < c.jobs.len()
            &&& c.jobs[i].path@ == p && c.jobs[i + 1].path@ == p
            &&& c.jobs[i].side == Side::Left && c.jobs[i + 1].side == Side::Right
            &&& c.jobs[i].id == i && c.jobs[i + 1].id == i + 1
        },
{
    assert(needs_hash(entry_at(c.left, p), entry_at(c.right, p)));
    assert(exists|i: int| 0 <= i < c.jobs.len() && i % 2 == 0 && (#[trigger] c.jobs[i]).path@ == p) by {
        reveal(jobs_complete);
    }
    let i = c.job_of(p)->0;
    assert(0 <= i < c.jobs.len() && i % 2 == 0 && c.jobs[i].path@ == p);
    assert(c.jobs.len() % 2 == 0 && c.jobs[i].id == i && c.jobs[i + 1].id == i + 1
        && c.jobs[i].side == Side::Left && c.jobs[i + 1].side == Side::Right) by {
        reveal(jobs_numbered);
    }
    assert(c.jobs[i + 1].path@ == p) by {
        reveal(jobs_needed);
    }
}

/// Two readable files of one type, whose contents were compared: the content is a
/// reason exactly when it differs, and then the file is modified, with no error.
proof fn lemma_content_reason(c: Comparison, p: Seq<char>, l: FsEntry, r: FsEntry, differs: bool)
    requires
        l.error is None,
        r.error is None,
        l.kind == EntryKind::File,
        r.kind == EntryKind::File,
        l.size == r.size,
        (l.mode & S_IFMT) == (r.mode & S_IFMT),
        c.content(p, l, r) == Ok::<bool, Seq<char>>(differs),
    ensures
        c.compare(p, l, r).1.contains(ChangeReason::Content) <==> differs,
        differs ==> c.compare(p, l, r).0 == ChangeStatus::Modified,
        c.compare(p, l, r).2 is None,
{
    let first = crate::folder::when(differs, ChangeReason::Content);
    let s1 = crate::folder::when(false, ChangeReason::Size);
    let s2 = crate::folder::when((l.mode & crate::folder::PERMISSION_BITS) != (r.mode & crate::folder::PERMISSION_BITS), ChangeReason::Permissions);
    let s3 = crate::folder::when(l.uid != r.uid || l.gid != r.gid, ChangeReason::Owner);
    let s4 = crate::folder::when(crate::chars::parsed_i128(l.mtime_ns@) != crate::chars::parsed_i128(r.mtime_ns@), ChangeReason::ModifiedTime);
    let s5 = crate::folder::when(crate::folder::opt_str(l.link_target) != crate::folder::opt_str(r.link_target), ChangeReason::LinkTarget);
    let reasons = first + s1 + s2 + s3 + s4 + s5;
    assert(c.compare(p, l, r).1 == reasons);
    assert forall|k: int| 0 <= k < reasons.len() implies (#[trigger] reasons[k] == ChangeReason::Content) == (k == 0 && differs) by {
    }
    if differs {
        assert(reasons[0] == ChangeReason::Content);
    }
}

/// Among the children of a folder, every node that is a folder on either side comes
/// before every node that is a folder on neither.
pub proof fn lemma_folders_first(c: Comparison, nodes: Seq<TreeNode>, parent: Seq<char>)
    requires
        c.children_shape(nodes, parent),
    ensures
        forall|i: int, j: int| #![trigger nodes[i], nodes[j]]
            0 <= i < j < nodes.len()
            && (nodes[j].left_kind == Some(EntryKind::Dir) || nodes[j].right_kind == Some(EntryKind::Dir))
            ==> (nodes[i].left_kind == Some(EntryKind::Dir) || nodes[i].right_kind == Some(EntryKind::Dir)),
{
    assert forall|i: int, j: int| #![trigger nodes[i], nodes[j]]
        0 <= i < j < nodes.len()
        && (nodes[j].left_kind == Some(EntryKind::Dir) || nodes[j].right_kind == Some(EntryKind::Dir))
        implies (nodes[i].left_kind == Some(EntryKind::Dir) || nodes[i].right_kind == Some(EntryKind::Dir)) by {
        assert(Comparison::node_before(nodes[i], nodes[j]));
    }
}

} // verus!
