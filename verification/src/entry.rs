//! The size tree that a scan produces, and the statistics over it.
use vstd::prelude::*;

verus! {

/// One node of the size tree: a file, a directory with its children, or a
/// symbolic link (which is never followed and counts zero bytes).
#[derive(Debug)]
pub struct Entry {
    pub name: String,
    pub size: u64,
    pub kind: EntryKind,
}

/// What an entry is.
#[derive(Debug)]
pub enum EntryKind {
    File,
    Dir { children: Vec<Entry> },
    Symlink,
}

/// Totals over a tree: bytes held in files, number of files, number of
/// directories.
pub struct Totals {
    pub bytes: nat,
    pub files: nat,
    pub dirs: nat,
}

pub open spec fn zero_totals() -> Totals {
    Totals { bytes: 0, files: 0, dirs: 0 }
}

pub open spec fn add_totals(a: Totals, b: Totals) -> Totals {
    Totals { bytes: a.bytes + b.bytes, files: a.files + b.files, dirs: a.dirs + b.dirs }
}

/// `a` is no larger than `b` in any count.
pub open spec fn totals_le(a: Totals, b: Totals) -> bool {
    a.bytes <= b.bytes && a.files <= b.files && a.dirs <= b.dirs
}

/// Every count of `t` fits in a `u64`.
pub open spec fn totals_fit(t: Totals) -> bool {
    t.bytes <= u64::MAX && t.files <= u64::MAX && t.dirs <= u64::MAX
}

/// The totals of a tree: a file counts its size and itself, a directory counts
/// itself and what its children hold, a symbolic link counts nothing.
pub open spec fn entry_totals(e: Entry) -> Totals
    decreases e,
{
    match e.kind {
        EntryKind::File => Totals { bytes: e.size as nat, files: 1, dirs: 0 },
        EntryKind::Dir { children } => {
            let t = forest_totals(children@);
            Totals { bytes: t.bytes, files: t.files, dirs: t.dirs + 1 }
        },
        EntryKind::Symlink => zero_totals(),
    }
}

/// The totals of a sequence of trees.
pub open spec fn forest_totals(s: Seq<Entry>) -> Totals
    decreases s,
{
    if s.len() == 0 {
        zero_totals()
    } else {
        add_totals(forest_totals(s.drop_last()), entry_totals(s.last()))
    }
}


/// The number of entries in a tree, the root included.
pub open spec fn node_count(e: Entry) -> nat
    decreases e,
{
    match e.kind {
        EntryKind::Dir { children } => 1 + forest_node_count(children@),
        _ => 1,
    }
}

/// The number of entries in a sequence of trees.
pub open spec fn forest_node_count(s: Seq<Entry>) -> nat
    decreases s,
{
    if s.len() == 0 {
        0
    } else {
        node_count(s[0]) + forest_node_count(s.drop_first())
    }
}

/// The sum of the sizes of `s`.
pub open spec fn sizes_sum(s: Seq<Entry>) -> nat
    decreases s.len(),
{
    if s.len() == 0 {
        0
    } else {
        sizes_sum(s.drop_last()) + s.last().size as nat
    }
}

/// The sizes of a tree agree with each other as a scan records them: every
/// directory is at least as large as its children together (exactly as
/// large when they were listed; a directory at the depth limit lists none).
pub open spec fn sizes_consistent(e: Entry) -> bool
    decreases e,
{
    match e.kind {
        EntryKind::Dir { children } => sizes_sum(children@) <= e.size && all_consistent(children@),
        _ => true,
    }
}

/// Every tree of `s` has consistent sizes.
pub open spec fn all_consistent(s: Seq<Entry>) -> bool
    decreases s,
{
    if s.len() == 0 {
        true
    } else {
        all_consistent(s.drop_last()) && sizes_consistent(s.last())
    }
}

/// `all_consistent` holds of a sequence exactly when each of its trees is
/// consistent.
pub proof fn lemma_all_consistent(s: Seq<Entry>)
    ensures
        all_consistent(s) <==> forall|i: int| 0 <= i < s.len() ==> #[trigger] sizes_consistent(s[i]),
    decreases s.len(),
{
    if s.len() > 0 {
        let rest = s.drop_last();
        lemma_all_consistent(rest);
        assert(forall|i: int| 0 <= i < rest.len() ==> rest[i] == s[i]);
        if forall|i: int| 0 <= i < s.len() ==> #[trigger] sizes_consistent(s[i]) {
            assert(sizes_consistent(s[s.len() - 1]));
            assert forall|i: int| 0 <= i < rest.len() implies #[trigger] sizes_consistent(rest[i]) by {
                assert(sizes_consistent(s[i]));
            }
        }
    }
}

/// In a tree whose sizes are consistent, the bytes that the statistics count
/// in files never exceed the size recorded for the root.
pub proof fn lemma_file_bytes_within_size(e: Entry)
    requires
        sizes_consistent(e),
    ensures
        entry_totals(e).bytes <= e.size,
    decreases e,
{
    match e.kind {
        EntryKind::Dir { children } => {
            assert(decreases_to!(e => e.kind));
            assert(decreases_to!(e.kind => e.kind->children));
            assert(decreases_to!(children => children@));
            lemma_forest_bytes_within_sizes(children@);
        },
        _ => {},
    }
}

/// In a sequence of consistent trees, the bytes counted in files never exceed
/// the sum of the sizes.
pub proof fn lemma_forest_bytes_within_sizes(s: Seq<Entry>)
    requires
        all_consistent(s),
    ensures
        forest_totals(s).bytes <= sizes_sum(s),
    decreases s,
{
    if s.len() > 0 {
        lemma_file_bytes_within_size(s.last());
        lemma_forest_bytes_within_sizes(s.drop_last());
    }
}

/// Sizes as a scan without depth limit records them: every directory exactly
/// as large as its children together, every symbolic link of size 0.
pub open spec fn sizes_exact(e: Entry) -> bool
    decreases e,
{
    match e.kind {
        EntryKind::Dir { children } => sizes_sum(children@) == e.size && all_exact(children@),
        EntryKind::Symlink => e.size == 0,
        EntryKind::File => true,
    }
}

/// Every tree of `s` has exact sizes.
pub open spec fn all_exact(s: Seq<Entry>) -> bool
    decreases s,
{
    if s.len() == 0 {
        true
    } else {
        all_exact(s.drop_last()) && sizes_exact(s.last())
    }
}

/// `all_exact` holds of a sequence exactly when each of its trees has exact
/// sizes.
pub proof fn lemma_all_exact(s: Seq<Entry>)
    ensures
        all_exact(s) <==> forall|i: int| 0 <= i < s.len() ==> #[trigger] sizes_exact(s[i]),
    decreases s.len(),
{
    if s.len() > 0 {
        let rest = s.drop_last();
        lemma_all_exact(rest);
        assert(forall|i: int| 0 <= i < rest.len() ==> rest[i] == s[i]);
        if forall|i: int| 0 <= i < s.len() ==> #[trigger] sizes_exact(s[i]) {
            assert(sizes_exact(s[s.len() - 1]));
            assert forall|i: int| 0 <= i < rest.len() implies #[trigger] sizes_exact(rest[i]) by {
                assert(sizes_exact(s[i]));
            }
        }
    }
}

/// Where no directory was cut off at a depth limit, the bytes that the
/// statistics count in files are exactly the size recorded for the root.
pub proof fn lemma_file_bytes_equal_size(e: Entry)
    requires
        sizes_exact(e),
    ensures
        entry_totals(e).bytes == e.size,
    decreases e,
{
    match e.kind {
        EntryKind::Dir { children } => {
            assert(decreases_to!(e => e.kind));
            assert(decreases_to!(e.kind => e.kind->children));
            assert(decreases_to!(children => children@));
            lemma_forest_bytes_equal_sizes(children@);
        },
        _ => {},
    }
}

/// In a sequence of trees with exact sizes, the bytes counted in files are
/// the sum of the sizes.
pub proof fn lemma_forest_bytes_equal_sizes(s: Seq<Entry>)
    requires
        all_exact(s),
    ensures
        forest_totals(s).bytes == sizes_sum(s),
    decreases s,
{
    if s.len() > 0 {
        lemma_file_bytes_equal_size(s.last());
        lemma_forest_bytes_equal_sizes(s.drop_last());
    }
}

/// A file counts as one file whatever its size, even an empty one; it adds
/// its size in bytes and no directory.
pub proof fn lemma_file_counts_once(e: Entry)
    requires
        e.kind is File,
    ensures
        entry_totals(e).files == 1,
        entry_totals(e).bytes == e.size,
        entry_totals(e).dirs == 0,
{
}

/// A symbolic link counts nothing.
pub proof fn lemma_symlink_counts_nothing(e: Entry)
    requires
        e.kind is Symlink,
    ensures
        entry_totals(e).files == 0,
        entry_totals(e).bytes == 0,
        entry_totals(e).dirs == 0,
{
}

/// A directory counts itself as one directory, adds no bytes of its own
/// whatever size it records, and counts what its children hold.
pub proof fn lemma_dir_counts_itself_and_children(e: Entry)
    requires
        e.kind is Dir,
    ensures
        entry_totals(e).dirs == forest_totals(e.kind->children@).dirs + 1,
        entry_totals(e).files == forest_totals(e.kind->children@).files,
        entry_totals(e).bytes == forest_totals(e.kind->children@).bytes,
{
}

/// Counts over a sequence of trees add up: one more tree adds its counts,
/// so that an empty file added beside others adds exactly one file.
pub proof fn lemma_forest_totals_push(s: Seq<Entry>, x: Entry)
    ensures
        forest_totals(s.push(x)).files == forest_totals(s).files + entry_totals(x).files,
        forest_totals(s.push(x)).dirs == forest_totals(s).dirs + entry_totals(x).dirs,
        forest_totals(s.push(x)).bytes == forest_totals(s).bytes + entry_totals(x).bytes,
{
    assert(s.push(x).drop_last() =~= s);
}

/// The totals of the first `i` trees of `s` grow with `i` and reach the
/// totals of `s`.
pub proof fn lemma_forest_prefix(s: Seq<Entry>, i: int)
    requires
        0 <= i < s.len(),
    ensures
        forest_totals(s.take(i + 1)) == add_totals(forest_totals(s.take(i)), entry_totals(s[i])),
        totals_le(forest_totals(s.take(i + 1)), forest_totals(s)),
    decreases s.len() - i,
{
    assert(s.take(i + 1).drop_last() =~= s.take(i));
    assert(s.take(i + 1).last() == s[i]);
    if i + 1 < s.len() {
        lemma_forest_prefix(s, i + 1);
    } else {
        assert(s.take(i + 1) =~= s);
    }
}

/// Statistics over a size tree.
#[derive(Debug)]
pub struct Stats {
    pub total_size: u64,
    pub file_count: u64,
    pub dir_count: u64,
}

impl Stats {
    /// The counts of these statistics, as totals.
    pub open spec fn totals(self) -> Totals {
        Totals {
            bytes: self.total_size as nat,
            files: self.file_count as nat,
            dirs: self.dir_count as nat,
        }
    }

    /// Counts the files, the directories (the entry itself included when it is
    /// one) and the bytes held in files, over the whole tree.  Symbolic links
    /// count nowhere, and the size recorded on a directory is not added: only
    /// files add bytes.
    pub fn from_entry(entry: &Entry) -> (stats: Stats)
        requires
            totals_fit(entry_totals(*entry)),
        ensures
            stats.totals() == entry_totals(*entry),
    {
        let mut stats = Stats { total_size: 0, file_count: 0, dir_count: 0 };
        let fits = accumulate(&mut stats, entry);
        assert(fits);
        assert(add_totals(zero_totals(), entry_totals(*entry)) == entry_totals(*entry));
        stats
    }

    /// As `from_entry`, but gives `None` where a count would not fit in a
    /// `u64`.
    pub fn try_from_entry(entry: &Entry) -> (stats: Option<Stats>)
        ensures
            stats is Some <==> totals_fit(entry_totals(*entry)),
            stats matches Some(s) ==> s.totals() == entry_totals(*entry),
    {
        let mut stats = Stats { total_size: 0, file_count: 0, dir_count: 0 };
        let ok = accumulate(&mut stats, entry);
        assert(add_totals(zero_totals(), entry_totals(*entry)) == entry_totals(*entry));
        if ok {
            Some(stats)
        } else {
            None
        }
    }
}

/// Adds the totals of `entry` to `stats`, keeping the counts already there;
/// gives `false` (and leaves `stats` unspecified) exactly when a count of the
/// sum would not fit.
pub fn accumulate(stats: &mut Stats, entry: &Entry) -> (ok: bool)
    ensures
        ok <==> totals_fit(add_totals(old(stats).totals(), entry_totals(*entry))),
        ok ==> final(stats).totals() == add_totals(old(stats).totals(), entry_totals(*entry)),
    decreases entry,
{
    match &entry.kind {
        EntryKind::File => {
            if stats.file_count == u64::MAX || stats.total_size > u64::MAX - entry.size {
                return false;
            }
            stats.file_count = stats.file_count + 1;
            stats.total_size = stats.total_size + entry.size;
            true
        },
        EntryKind::Dir { children } => {
            if stats.dir_count == u64::MAX {
                return false;
            }
            stats.dir_count = stats.dir_count + 1;
            let ghost base = stats.totals();
            let ghost whole = add_totals(old(stats).totals(), entry_totals(*entry));
            assert(children@.take(0) =~= Seq::<Entry>::empty());
            let mut i: usize = 0;
            while i < children.len()
                invariant
                    0 <= i <= children.len(),
                    entry.kind is Dir,
                    entry.kind->children == *children,
                    whole == add_totals(old(stats).totals(), entry_totals(*entry)),
                    entry_totals(*entry).dirs == forest_totals(children@).dirs + 1,
                    entry_totals(*entry).files == forest_totals(children@).files,
                    entry_totals(*entry).bytes == forest_totals(children@).bytes,
                    base == add_totals(old(stats).totals(), Totals { bytes: 0, files: 0, dirs: 1 }),
                    stats.totals() == add_totals(base, forest_totals(children@.take(i as int))),
                decreases children.len() - i,
            {
                proof {
                    lemma_forest_prefix(children@, i as int);
                    assert(decreases_to!(entry.kind => entry.kind->children));
                    assert(entry.kind->children == *children);
                    assert(decreases_to!(*children => children@));
                    assert(decreases_to!(children@ => children@[i as int]));
                }
                if !accumulate(stats, &children[i]) {
                    return false;
                }
                i = i + 1;
            }
            assert(children@.take(i as int) =~= children@);
            true
        },
        EntryKind::Symlink => true,
    }
}

} // verus!
