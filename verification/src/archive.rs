use vstd::prelude::*;
use crate::map::{string_push, FileInfo, DedupMap, Archive, trim_leading_slashes, paths_view, hex_string, hex_encode, dedup_map_of, dedup_map_add};
use crate::hasher::FileMap;
use crate::path::{paths_match, same_path};

verus! {

const ARCHIVE_FILE_EXTENSION: &'static str = "ddm";

const ARCHIVE_FILE_NAME: &'static str = "archive";

/// Whether `s` ends with `suffix`.
pub open spec fn ends_with(s: Seq<char>, suffix: Seq<char>) -> bool {
    suffix.len() <= s.len() && s.skip(s.len() - suffix.len()) == suffix
}

/// Where the deduplication map of an archive is written: nowhere when the
/// archive goes to standard output (`-`); else, next to the archive, the
/// archive's name with its `.tar` extension replaced by `.ddm` when it has
/// one, or with `.ddm` appended otherwise.
pub open spec fn dedup_map_path_of(archive: Seq<char>) -> Option<Seq<char>> {
    if archive == "-"@ {
        None
    } else if ends_with(archive, ".tar"@) {
        Some(archive.take(archive.len() - 4) + ".ddm"@)
    } else {
        Some(archive + ".ddm"@)
    }
}

/// Only an archive sent to standard output (`-`) has no deduplication map
/// file; every other archive has one, never written over the archive itself
/// and always next to it: its path is the archive's name without its
/// `.tar` extension (or the whole name, when it has none) followed by
/// `.ddm`.
pub proof fn lemma_dedup_map_path_differs(archive: Seq<char>)
    ensures
        (dedup_map_path_of(archive) is None) == (archive == "-"@),
        dedup_map_path_of(archive) matches Some(p) ==> p != archive,
        dedup_map_path_of(archive) matches Some(p) ==> ends_with(p, ".ddm"@),
        dedup_map_path_of(archive) matches Some(p) ==> (ends_with(archive, ".tar"@) ==> p.take(
            p.len() - 4,
        ) == archive.take(archive.len() - 4)) && (!ends_with(archive, ".tar"@) ==> p.take(
            p.len() - 4,
        ) == archive),
{
    reveal_strlit(".tar");
    reveal_strlit(".ddm");
    if archive != "-"@ {
        let p = dedup_map_path_of(archive)->0;
        if ends_with(archive, ".tar"@) {
            let base = archive.take(archive.len() - 4);
            assert(p.skip(p.len() - 4) =~= ".ddm"@);
            assert(p.take(p.len() - 4) =~= base);
            if p == archive {
                assert(p.skip(p.len() - 4)[1] == 'd');
                assert(archive.skip(archive.len() - 4)[1] == 't');
            }
        } else {
            assert((archive + ".ddm"@).len() == archive.len() + 4);
            assert(p.skip(p.len() - 4) =~= ".ddm"@);
            assert(p.take(p.len() - 4) =~= archive);
        }
    }
}

fn chars_of(s: &str) -> (v: Vec<char>)
    ensures
        v@ == s@,
{
    let n = s.unicode_len();
    let mut v: Vec<char> = Vec::new();
    let mut i: usize = 0;
    while i < n
        invariant
            n == s@.len(),
            i <= n,
            v@ == s@.take(i as int),
        decreases n - i,
    {
        v.push(s.get_char(i));
        i = i + 1;
        assert(v@ =~= s@.take(i as int));
    }
    assert(s@.take(n as int) =~= s@);
    v
}

/// Generates the path of the deduplication map from the archive's name
/// (see `dedup_map_path_of`).
pub fn generate_dedup_map_path(archive: &str) -> (res: Option<String>)
    ensures
        match res {
            None => dedup_map_path_of(archive@) is None,
            Some(p) => dedup_map_path_of(archive@) == Some(p@),
        },
{
    proof {
        reveal_strlit("-");
        reveal_strlit(".tar");
        reveal_strlit(".ddm");
    }
    let s = chars_of(archive);
    let n = s.len();
    if n == 1 && s[0] == '-' {
        assert(s@ =~= "-"@);
        return None;
    }
    assert(s@ != "-"@) by {
        if s@ == "-"@ {
            assert(s@[0] == '-');
        }
    }
    let has_tar = n >= 4 && s[n - 4] == '.' && s[n - 3] == 't' && s[n - 2] == 'a' && s[n - 1] == 'r';
    proof {
        if n >= 4 {
            let t = s@.skip(n - 4);
            if has_tar {
                assert(t =~= ".tar"@);
            } else if t == ".tar"@ {
                assert(t[0] == s@[n - 4]);
                assert(t[1] == s@[n - 3]);
                assert(t[2] == s@[n - 2]);
                assert(t[3] == s@[n - 1]);
            }
        }
    }
    let keep: usize = if has_tar { n - 4 } else { n };
    let mut out = String::new();
    let mut i: usize = 0;
    while i < keep
        invariant
            keep <= n,
            n == s@.len(),
            i <= keep,
            out@ == s@.take(i as int),
        decreases keep - i,
    {
        string_push(&mut out, s[i]);
        i = i + 1;
        assert(out@ =~= s@.take(i as int));
    }
    string_push(&mut out, '.');
    string_push(&mut out, 'd');
    string_push(&mut out, 'd');
    string_push(&mut out, 'm');
    proof {
        if has_tar {
            assert(out@ =~= s@.take(n - 4) + ".ddm"@);
        } else {
            assert(s@.take(n as int) =~= s@);
            assert(out@ =~= s@ + ".ddm"@);
        }
    }
    Some(out)
}

/// The name under which the deduplication map is stored in the archive,
/// `archive.ddm`.
pub fn dedup_map_entry_name() -> (name: String)
    ensures
        name@ == "archive.ddm"@,
{
    proof {
        reveal_strlit("archive.ddm");
        reveal_strlit("archive");
        reveal_strlit("ddm");
        reveal_strlit(".");
    }
    let mut name = String::from_str(ARCHIVE_FILE_NAME);
    name.append(".");
    name.append(ARCHIVE_FILE_EXTENSION);
    assert(name@ =~= "archive.ddm"@);
    name
}

/// An entry to be written to the tar archive.
#[derive(Debug)]
pub enum TarEntry {
    /// The file at `source`, stored under `name`.
    File { source: String, name: String },
    /// A hard link `name` to the earlier entry `target`, owned by `uid` and `gid`.
    Link { name: String, target: String, uid: u32, gid: u32 },
    /// A symbolic link `name` pointing to `target`, owned by `uid` and `gid`.
    Symlink { name: String, target: String, uid: u32, gid: u32 },
}

/// A tar entry as the contracts speak of it.
pub enum PlannedEntry {
    File { source: Seq<char>, name: Seq<char> },
    Link { name: Seq<char>, target: Seq<char>, uid: u32, gid: u32 },
    Symlink { name: Seq<char>, target: Seq<char>, uid: u32, gid: u32 },
}

pub open spec fn entry_view(e: TarEntry) -> PlannedEntry {
    match e {
        TarEntry::File { source, name } => PlannedEntry::File { source: source@, name: name@ },
        TarEntry::Link { name, target, uid, gid } => PlannedEntry::Link {
            name: name@,
            target: target@,
            uid,
            gid,
        },
        TarEntry::Symlink { name, target, uid, gid } => PlannedEntry::Symlink {
            name: name@,
            target: target@,
            uid,
            gid,
        },
    }
}

pub open spec fn entries_view(entries: Seq<TarEntry>) -> Seq<PlannedEntry> {
    entries.map_values(|e: TarEntry| entry_view(e))
}

/// The entry that stores a file under its sanitized path: a symbolic link
/// kept as a link becomes a symbolic-link entry with its target, any other
/// file an entry with its contents.
pub open spec fn stored_entry(f: FileInfo) -> PlannedEntry {
    match f.link_target {
        Some(t) => PlannedEntry::Symlink {
            name: trim_leading_slashes(f.path@),
            target: t@,
            uid: f.uid,
            gid: f.gid,
        },
        None => PlannedEntry::File { source: f.path@, name: trim_leading_slashes(f.path@) },
    }
}

/// The entry that stores a duplicate as a hard link to `target`.
pub open spec fn link_entry(target: Seq<char>, d: FileInfo) -> PlannedEntry {
    PlannedEntry::Link { name: trim_leading_slashes(d.path@), target, uid: d.uid, gid: d.gid }
}

/// The entries of one group of identical files: the first is stored, each
/// other one becomes a hard link to it.
pub open spec fn group_plan(files: Seq<FileInfo>) -> Seq<PlannedEntry> {
    seq![stored_entry(files[0])] + files.skip(1).map_values(
        |d: FileInfo| link_entry(trim_leading_slashes(files[0].path@), d),
    )
}

/// The entries of all groups, one group after the other.
pub open spec fn plan_of(groups: Seq<Seq<FileInfo>>) -> Seq<PlannedEntry>
    decreases groups.len(),
{
    if groups.len() == 0 {
        Seq::empty()
    } else {
        plan_of(groups.drop_last()) + group_plan(groups.last())
    }
}

/// The sum of the sizes of some files.
pub open spec fn files_size(files: Seq<FileInfo>) -> nat
    decreases files.len(),
{
    if files.len() == 0 {
        0
    } else {
        files_size(files.drop_last()) + files.last().size as nat
    }
}

/// The sum of the sizes of all files of all groups.
pub open spec fn total_size(groups: Seq<Seq<FileInfo>>) -> nat
    decreases groups.len(),
{
    if groups.len() == 0 {
        0
    } else {
        total_size(groups.drop_last()) + files_size(groups.last())
    }
}

/// The sum of the sizes of the first file of each group: what is stored.
pub open spec fn stored_size(groups: Seq<Seq<FileInfo>>) -> nat
    decreases groups.len(),
{
    if groups.len() == 0 {
        0
    } else {
        stored_size(groups.drop_last()) + groups.last()[0].size as nat
    }
}

/// The deduplication map of a file map: for each group of more than one
/// file, the sanitized path of its first file and those of the others.
pub open spec fn dedup_of(m: Map<Seq<char>, Seq<FileInfo>>) -> Map<
    Seq<char>,
    (Seq<char>, Seq<Seq<char>>),
> {
    Map::new(
        |k: Seq<char>| m.contains_key(k) && m[k].len() > 1,
        |k: Seq<char>|
            (
                trim_leading_slashes(m[k][0].path@),
                m[k].skip(1).map_values(|d: FileInfo| trim_leading_slashes(d.path@)),
            ),
    )
}

proof fn lemma_files_size_prefix(files: Seq<FileInfo>, j: int)
    requires
        0 <= j <= files.len(),
    ensures
        files_size(files.take(j)) <= files_size(files),
        j < files.len() ==> files_size(files.take(j + 1)) == files_size(files.take(j)) + files[j].size,
    decreases files.len(),
{
    if j < files.len() {
        assert(files.take(j + 1).drop_last() =~= files.take(j));
        lemma_files_size_prefix(files.drop_last(), j);
        assert(files.drop_last().take(j) =~= files.take(j));
        if j + 1 < files.len() {
            lemma_files_size_prefix(files.drop_last(), j + 1);
            assert(files.drop_last().take(j + 1) =~= files.take(j + 1));
        }
    } else {
        assert(files.take(j) =~= files);
    }
}

proof fn lemma_total_size_prefix(groups: Seq<Seq<FileInfo>>, i: int)
    requires
        0 <= i <= groups.len(),
    ensures
        total_size(groups.take(i)) <= total_size(groups),
        i < groups.len() ==> total_size(groups.take(i + 1)) == total_size(groups.take(i))
            + files_size(groups[i]),
        i < groups.len() ==> stored_size(groups.take(i + 1)) == stored_size(groups.take(i))
            + groups[i][0].size,
        i < groups.len() ==> plan_of(groups.take(i + 1)) == plan_of(groups.take(i)) + group_plan(
            groups[i],
        ),
    decreases groups.len(),
{
    if i < groups.len() {
        assert(groups.take(i + 1).drop_last() =~= groups.take(i));
        lemma_total_size_prefix(groups.drop_last(), i);
        assert(groups.drop_last().take(i) =~= groups.take(i));
        if i + 1 < groups.len() {
            lemma_total_size_prefix(groups.drop_last(), i + 1);
            assert(groups.drop_last().take(i + 1) =~= groups.take(i + 1));
        }
    } else {
        assert(groups.take(i) =~= groups);
    }
}

/// The sizes of the files of a file map summed, if the sum fits in a `u64`.
pub fn checked_total_size(map: &FileMap) -> (res: Option<u64>)
    ensures
        match res {
            Some(t) => t == total_size(map.groups_in_order()),
            None => total_size(map.groups_in_order()) > u64::MAX,
        },
{
    let n = map.num_groups();
    let ghost gs = map.groups_in_order();
    let mut total: u64 = 0;
    let mut i: usize = 0;
    while i < n
        invariant
            n == gs.len(),
            gs == map.groups_in_order(),
            n == map.key_order().len(),
            i <= n,
            total == total_size(gs.take(i as int)),
        decreases n - i,
    {
        let (_, files) = map.group(i);
        let m = files.len();
        let mut j: usize = 0;
        proof {
            lemma_total_size_prefix(gs, i as int);
            assert(files@.take(0) =~= Seq::<FileInfo>::empty());
        }
        while j < m
            invariant
                m == files@.len(),
                i < n,
                n == gs.len(),
                gs == map.groups_in_order(),
                files@ == gs[i as int],
                j <= m,
                total == total_size(gs.take(i as int)) + files_size(files@.take(j as int)),
            decreases m - j,
        {
            proof {
                lemma_files_size_prefix(files@, j as int);
            }
            match total.checked_add(files[j].size) {
                Some(t) => {
                    total = t;
                },
                None => {
                    proof {
                        lemma_files_size_prefix(files@, j as int + 1);
                        lemma_total_size_prefix(gs, i as int + 1);
                        lemma_total_size_prefix(gs, i as int);
                        assert(files@.take(m as int) =~= files@);
                        lemma_files_size_prefix(files@, m as int);
                    }
                    return None;
                },
            }
            j = j + 1;
        }
        proof {
            assert(files@.take(m as int) =~= files@);
            lemma_total_size_prefix(gs, i as int);
        }
        i = i + 1;
    }
    proof {
        assert(gs.take(n as int) =~= gs);
    }
    Some(total)
}

/// Whether no group is empty, as in every file map.
pub open spec fn nonempty_groups(groups: Seq<Seq<FileInfo>>) -> bool {
    forall|i: int| 0 <= i < groups.len() ==> #[trigger] groups[i].len() > 0
}

/// Whether an entry stores a file (its contents or, for a symbolic link,
/// the link itself) under `n`.
pub open spec fn stores_under(e: PlannedEntry, n: Seq<char>) -> bool {
    match e {
        PlannedEntry::File { name, .. } => name == n,
        PlannedEntry::Symlink { name, .. } => name == n,
        _ => false,
    }
}

/// The target of a hard-link entry.
pub open spec fn link_target(e: PlannedEntry) -> Option<Seq<char>> {
    match e {
        PlannedEntry::Link { target, .. } => Some(target),
        _ => None,
    }
}

/// The number of files in all groups.
pub open spec fn file_count(groups: Seq<Seq<FileInfo>>) -> nat
    decreases groups.len(),
{
    if groups.len() == 0 {
        0
    } else {
        file_count(groups.drop_last()) + groups.last().len()
    }
}

/// Every hard link of the plan points to a file stored by an earlier entry
/// under exactly the link's target, so that extracting the archive in order
/// finds each link's target already in place.
pub proof fn lemma_links_follow_their_target(groups: Seq<Seq<FileInfo>>, j: int)
    requires
        nonempty_groups(groups),
        0 <= j < plan_of(groups).len(),
        link_target(plan_of(groups)[j]) is Some,
    ensures
        exists|i: int|
            0 <= i < j && stores_under(
                #[trigger] plan_of(groups)[i],
                link_target(plan_of(groups)[j])->0,
            ),
    decreases groups.len(),
{
    let prev = plan_of(groups.drop_last());
    let g = groups.last();
    assert(groups[groups.len() - 1].len() > 0);
    assert(plan_of(groups) == prev + group_plan(g));
    if j < prev.len() {
        assert(nonempty_groups(groups.drop_last())) by {
            assert forall|i: int| 0 <= i < groups.drop_last().len() implies #[trigger] groups.drop_last()[i].len() > 0 by {
                assert(groups.drop_last()[i] == groups[i]);
            }
        }
        assert(plan_of(groups)[j] == prev[j]);
        lemma_links_follow_their_target(groups.drop_last(), j);
        let i = choose|i: int| 0 <= i < j && stores_under(#[trigger] prev[i], link_target(prev[j])->0);
        assert(plan_of(groups)[i] == prev[i]);
    } else {
        let t = j - prev.len();
        assert(plan_of(groups)[j] == group_plan(g)[t]);
        if t == 0 {
            assert(group_plan(g)[0] == stored_entry(g[0]));
        } else {
            assert(group_plan(g)[t] == link_entry(trim_leading_slashes(g[0].path@), g.skip(1)[t - 1]));
            assert(plan_of(groups)[prev.len() as int] == stored_entry(g[0]));
            assert(stores_under(plan_of(groups)[prev.len() as int], link_target(plan_of(groups)[j])->0));
        }
    }
}

/// Whether `groups` lists, in the order of `keys`, the groups of `m`.
pub open spec fn lists_groups(
    m: Map<Seq<char>, Seq<FileInfo>>,
    keys: Seq<Seq<char>>,
    groups: Seq<Seq<FileInfo>>,
) -> bool {
    &&& keys.len() == groups.len()
    &&& forall|i: int|
        0 <= i < keys.len() ==> {
            &&& m.contains_key(#[trigger] keys[i])
            &&& m[keys[i]] == groups[i]
            &&& groups[i].len() > 0
        }
}

/// The deduplication map describes every hard link of the plan: each link
/// is among the duplicates of a record whose original is the link's target,
/// so an archive written from the plan passes the link check of
/// `verify_entry` against its own map.
pub proof fn lemma_links_are_recorded(
    m: Map<Seq<char>, Seq<FileInfo>>,
    keys: Seq<Seq<char>>,
    groups: Seq<Seq<FileInfo>>,
    j: int,
)
    requires
        lists_groups(m, keys, groups),
        0 <= j < plan_of(groups).len(),
        plan_of(groups)[j] is Link,
    ensures
        records_link(
            dedup_of(m),
            plan_of(groups)[j]->Link_name,
            plan_of(groups)[j]->Link_target,
        ),
    decreases groups.len(),
{
    let n = groups.len();
    let prev = plan_of(groups.drop_last());
    let g = groups.last();
    let k = keys[n - 1];
    assert(m.contains_key(keys[n - 1]));
    assert(plan_of(groups) == prev + group_plan(g));
    if j < prev.len() {
        assert(lists_groups(m, keys.drop_last(), groups.drop_last())) by {
            assert forall|i: int| 0 <= i < keys.drop_last().len() implies {
                &&& m.contains_key(#[trigger] keys.drop_last()[i])
                &&& m[keys.drop_last()[i]] == groups.drop_last()[i]
                &&& groups.drop_last()[i].len() > 0
            } by {
                assert(keys.drop_last()[i] == keys[i]);
                assert(m.contains_key(keys[i]));
            }
        }
        assert(plan_of(groups)[j] == prev[j]);
        lemma_links_are_recorded(m, keys.drop_last(), groups.drop_last(), j);
    } else {
        let t = j - prev.len();
        assert(plan_of(groups)[j] == group_plan(g)[t]);
        assert(t != 0);
        assert(group_plan(g)[t] == link_entry(trim_leading_slashes(g[0].path@), g.skip(1)[t - 1]));
        let dups = g.skip(1).map_values(|d: FileInfo| trim_leading_slashes(d.path@));
        assert(dups[t - 1] == trim_leading_slashes(g.skip(1)[t - 1].path@));
        assert(dedup_of(m).contains_key(k));
        assert(same_path(dedup_of(m)[k].1[t - 1], plan_of(groups)[j]->Link_name));
        assert(same_path(dedup_of(m)[k].0, plan_of(groups)[j]->Link_target));
        assert(dedup_of(m)[k].1 == dups);
    }
}

/// Sizes add up: the size of two runs of files is the sum of their sizes,
/// and one file counts its own size.
pub proof fn lemma_files_size_adds(a: Seq<FileInfo>, b: Seq<FileInfo>, f: FileInfo)
    ensures
        files_size(a + b) == files_size(a) + files_size(b),
        files_size(seq![f]) == f.size,
    decreases b.len(),
{
    assert(seq![f].drop_last() =~= Seq::<FileInfo>::empty());
    assert(files_size(Seq::<FileInfo>::empty()) == 0);
    assert(seq![f].last() == f);
    if b.len() == 0 {
        assert(a + b =~= a);
    } else {
        lemma_files_size_adds(a, b.drop_last(), f);
        assert((a + b).drop_last() =~= a + b.drop_last());
    }
}

/// The totals add up over groups: the original size of two runs of groups
/// is the sum of theirs, and one group counts all its files; the stored
/// size of one group is the size of its first file only; the plan of two
/// runs of groups is the plan of the first followed by that of the second.
pub proof fn lemma_group_sums_add(a: Seq<Seq<FileInfo>>, b: Seq<Seq<FileInfo>>, g: Seq<FileInfo>)
    ensures
        total_size(a + b) == total_size(a) + total_size(b),
        stored_size(a + b) == stored_size(a) + stored_size(b),
        plan_of(a + b) == plan_of(a) + plan_of(b),
        file_count(a + b) == file_count(a) + file_count(b),
        total_size(seq![g]) == files_size(g),
        stored_size(seq![g]) == g[0].size,
        plan_of(seq![g]) == group_plan(g),
        file_count(seq![g]) == g.len(),
    decreases b.len(),
{
    assert(seq![g].drop_last() =~= Seq::<Seq<FileInfo>>::empty());
    assert(seq![g].last() == g);
    assert(total_size(Seq::<Seq<FileInfo>>::empty()) == 0);
    assert(stored_size(Seq::<Seq<FileInfo>>::empty()) == 0);
    assert(file_count(Seq::<Seq<FileInfo>>::empty()) == 0);
    assert(plan_of(Seq::<Seq<FileInfo>>::empty()) == Seq::<PlannedEntry>::empty());
    assert(plan_of(Seq::<Seq<FileInfo>>::empty()) + group_plan(g) =~= group_plan(g));
    if b.len() == 0 {
        assert(a + b =~= a);
        assert(plan_of(a) + plan_of(b) =~= plan_of(a));
    } else {
        lemma_group_sums_add(a, b.drop_last(), g);
        assert((a + b).drop_last() =~= a + b.drop_last());
        assert((a + b).last() == b.last());
        assert(plan_of(a + b) =~= plan_of(a) + plan_of(b));
    }
}

/// The entries of one group: as many as its files; the first stores the
/// group's first file, and each later file becomes a hard link, named by its
/// own sanitized path, to the first file's sanitized path.
pub proof fn lemma_group_plan_entries(g: Seq<FileInfo>, i: int)
    requires
        0 <= i < g.len(),
    ensures
        group_plan(g).len() == g.len(),
        i == 0 ==> group_plan(g)[i] == stored_entry(g[0]),
        i > 0 ==> group_plan(g)[i] == (PlannedEntry::Link {
            name: trim_leading_slashes(g[i].path@),
            target: trim_leading_slashes(g[0].path@),
            uid: g[i].uid,
            gid: g[i].gid,
        }),
{
    if i > 0 {
        assert(group_plan(g)[i] == g.skip(1).map_values(
            |d: FileInfo| link_entry(trim_leading_slashes(g[0].path@), d),
        )[i - 1]);
        assert(g.skip(1)[i - 1] == g[i]);
    }
}

/// A file is stored as a symbolic-link entry exactly when it is a link kept
/// as a link, with its own target; any other file is stored with its
/// contents, read from its path. Either way it is named by its sanitized path.
pub proof fn lemma_stored_entry_kind(f: FileInfo)
    ensures
        (stored_entry(f) is Symlink) == (f.link_target is Some),
        (stored_entry(f) is File) == (f.link_target is None),
        stored_entry(f) is Symlink ==> stored_entry(f)->Symlink_target == f.link_target->0@
            && stored_entry(f)->Symlink_name == trim_leading_slashes(f.path@),
        stored_entry(f) is File ==> stored_entry(f)->File_source == f.path@
            && stored_entry(f)->File_name == trim_leading_slashes(f.path@),
{
}

/// Every file of every group becomes exactly one entry of the plan.
pub proof fn lemma_plan_has_an_entry_per_file(groups: Seq<Seq<FileInfo>>)
    requires
        nonempty_groups(groups),
    ensures
        plan_of(groups).len() == file_count(groups),
    decreases groups.len(),
{
    if groups.len() > 0 {
        assert(groups[groups.len() - 1].len() > 0);
        assert(nonempty_groups(groups.drop_last())) by {
            assert forall|i: int| 0 <= i < groups.drop_last().len() implies #[trigger] groups.drop_last()[i].len() > 0 by {
                assert(groups.drop_last()[i] == groups[i]);
            }
        }
        lemma_plan_has_an_entry_per_file(groups.drop_last());
    }
}

/// What is stored never exceeds what went in: the deduplicated size is at
/// most the original size.
pub proof fn lemma_stored_at_most_total(groups: Seq<Seq<FileInfo>>)
    requires
        nonempty_groups(groups),
    ensures
        stored_size(groups) <= total_size(groups),
    decreases groups.len(),
{
    if groups.len() > 0 {
        let g = groups.last();
        assert(groups[groups.len() - 1].len() > 0);
        assert(nonempty_groups(groups.drop_last())) by {
            assert forall|i: int| 0 <= i < groups.drop_last().len() implies #[trigger] groups.drop_last()[i].len() > 0 by {
                assert(groups.drop_last()[i] == groups[i]);
            }
        }
        lemma_stored_at_most_total(groups.drop_last());
        lemma_files_size_prefix(g, 0);
        lemma_files_size_prefix(g, 1);
        assert(g.take(0) =~= Seq::<FileInfo>::empty());
    }
}

/// Everything that writing an archive of a file map takes: the tar entries
/// in order, the deduplication map, the sizes, and where the deduplication
/// map is written before it is stored in the archive.
pub struct ArchivePlan {
    pub entries: Vec<TarEntry>,
    pub dedup_map: DedupMap,
    pub archive: Archive,
    pub dedup_map_path: String,
}

/// The path under which the deduplication map of `archive` is written.
pub open spec fn dedup_map_file_of(archive: Seq<char>) -> Seq<char> {
    match dedup_map_path_of(archive) {
        Some(p) => p,
        None => "archive.ddm"@,
    }
}

/// Plans the archive of a file map: for each group, in order, its first
/// file is stored under its sanitized path (a symbolic link kept as a link
/// as a symbolic-link entry) and every other file becomes a hard link to
/// it, recorded in the deduplication map.
pub fn plan_archive(archive_name: &str, map: &FileMap) -> (plan: ArchivePlan)
    requires
        total_size(map.groups_in_order()) <= u64::MAX,
    ensures
        entries_view(plan.entries@) == plan_of(map.groups_in_order()),
        plan.dedup_map@ == dedup_of(map@),
        plan.archive.orig_size == total_size(map.groups_in_order()),
        plan.archive.dedup_size == stored_size(map.groups_in_order()),
        plan.dedup_map_path@ == dedup_map_file_of(archive_name@),
{
    let n = map.num_groups();
    let ghost gs = map.groups_in_order();
    let ghost ko = map.key_order();
    let ghost m_view = map@;
    let mut entries: Vec<TarEntry> = Vec::new();
    let mut dedup_map = DedupMap::new();
    let mut archive = Archive::new();
    let mut i: usize = 0;
    proof {
        assert(entries_view(entries@) =~= plan_of(gs.take(0)));
        assert(gs.take(0) =~= Seq::<Seq<FileInfo>>::empty());
    }
    while i < n
        invariant
            n == gs.len(),
            n == ko.len(),
            gs == map.groups_in_order(),
            ko == map.key_order(),
            m_view == map@,
            total_size(gs) <= u64::MAX,
            i <= n,
            entries_view(entries@) == plan_of(gs.take(i as int)),
            archive.orig_size == total_size(gs.take(i as int)),
            archive.dedup_size == stored_size(gs.take(i as int)),
            archive.dedup_size <= archive.orig_size,
            forall|k: Seq<char>|
                #[trigger] dedup_map@.contains_key(k) == (m_view.contains_key(k) && m_view[k].len() > 1
                    && exists|j: int| 0 <= j < i && ko[j] == k),
            forall|k: Seq<char>|
                #[trigger] dedup_map@.contains_key(k) ==> dedup_map@[k] == dedup_of(m_view)[k],
        decreases n - i,
    {
        let (key, files) = map.group(i);
        let ghost g = files@;
        let ghost d_before = dedup_map@;
        let ghost e_before = entries_view(entries@);
        let m = files.len();
        let primary = &files[0];
        let name = primary.sanitize_path();
        proof {
            lemma_total_size_prefix(gs, i as int);
            lemma_total_size_prefix(gs, i as int + 1);
            lemma_files_size_prefix(g, 0);
            lemma_files_size_prefix(g, m as int);
            assert(g.take(0) =~= Seq::<FileInfo>::empty());
            assert(g.take(m as int) =~= g);
            lemma_files_size_prefix(g, 1);
        }
        let first = match &primary.link_target {
            Some(t) => TarEntry::Symlink {
                name: name.clone(),
                target: t.clone(),
                uid: primary.uid,
                gid: primary.gid,
            },
            None => TarEntry::File { source: primary.path_as_string(), name: name.clone() },
        };
        entries.push(first);
        archive.add_file(primary);
        proof {
            assert(entries_view(entries@) =~= e_before.push(stored_entry(g[0])));
        }
        let ghost target = name@;
        if m > 1 {
            dedup_map.add_file(key, name.clone());
            let mut j: usize = 1;
            proof {
                assert(g.subrange(1, 1).map_values(|d: FileInfo| trim_leading_slashes(d.path@))
                    =~= Seq::<Seq<char>>::empty());
                assert(g.subrange(1, 1).map_values(|d: FileInfo| link_entry(target, d))
                    =~= Seq::<PlannedEntry>::empty());
                assert(entries_view(entries@) =~= e_before + seq![stored_entry(g[0])]
                    + g.subrange(1, 1).map_values(|d: FileInfo| link_entry(target, d)));
            }
            while j < m
                invariant
                    m == g.len(),
                    files@ == g,
                    1 <= j <= m,
                    g == gs[i as int],
                    i < n,
                    n == gs.len(),
                    target == trim_leading_slashes(g[0].path@),
                    name@ == target,
                    total_size(gs) <= u64::MAX,
                    total_size(gs.take(i as int + 1)) <= total_size(gs),
                    total_size(gs.take(i as int + 1)) == total_size(gs.take(i as int)) + files_size(g),
                    files_size(g.take(m as int)) == files_size(g),
                    archive.orig_size == total_size(gs.take(i as int)) + files_size(g.take(j as int)),
                    archive.dedup_size == stored_size(gs.take(i as int)) + g[0].size,
                    archive.dedup_size <= archive.orig_size,
                    entries_view(entries@) == e_before + seq![stored_entry(g[0])] + g.subrange(1, j as int).map_values(
                        |d: FileInfo| link_entry(target, d),
                    ),
                    !d_before.contains_key(key@),
                    dedup_map@ == d_before.insert(
                        key@,
                        (
                            target,
                            g.subrange(1, j as int).map_values(|d: FileInfo| trim_leading_slashes(d.path@)),
                        ),
                    ),
                decreases m - j,
            {
                let dup = &files[j];
                let dup_name = dup.sanitize_path();
                let ghost ev = entries_view(entries@);
                proof {
                    lemma_files_size_prefix(g, j as int);
                    lemma_files_size_prefix(g, j as int + 1);
                }
                entries.push(
                    TarEntry::Link { name: dup_name.clone(), target: name.clone(), uid: dup.uid, gid: dup.gid },
                );
                archive.add_dup(dup);
                dedup_map.add_file(key, dup_name);
                proof {
                    assert(entries_view(entries@) =~= ev.push(link_entry(target, g[j as int])));
                    assert(g.subrange(1, j + 1) =~= g.subrange(1, j as int).push(g[j as int]));
                    assert(g.subrange(1, j + 1).map_values(|d: FileInfo| link_entry(target, d))
                        =~= g.subrange(1, j as int).map_values(|d: FileInfo| link_entry(target, d)).push(
                        link_entry(target, g[j as int]),
                    ));
                    assert(g.subrange(1, j + 1).map_values(|d: FileInfo| trim_leading_slashes(d.path@))
                        =~= g.subrange(1, j as int).map_values(|d: FileInfo| trim_leading_slashes(d.path@)).push(
                        trim_leading_slashes(g[j as int].path@),
                    ));
                }
                j = j + 1;
            }
            proof {
                assert(g.subrange(1, m as int) =~= g.skip(1));
            }
        }
        proof {
            assert(entries_view(entries@) =~= e_before + group_plan(g));
        }
        i = i + 1;
    }
    let dedup_map_path = match generate_dedup_map_path(archive_name) {
        Some(p) => p,
        None => dedup_map_entry_name(),
    };
    proof {
        assert(gs.take(n as int) =~= gs);
    }
    ArchivePlan { entries, dedup_map, archive, dedup_map_path }
}

/// The kind of an entry read back from an archive.
#[derive(Debug)]
pub enum EntryKind {
    Regular,
    HardLink,
    Other,
}

/// Why an archive does not match its deduplication map.
#[derive(Debug)]
pub enum VerifyError {
    /// A stored file whose contents hash to `hash` is recorded neither as
    /// the original nor as a duplicate under that hash.
    NotInDedupMap { path: String, hash: String },
    /// A hard link without a target.
    LinkWithoutTarget { path: String },
    /// A hard link that no record of the map describes.
    LinkNotDescribed { path: String, target: String },
}

/// Whether some path of `paths` names the same place as `path`.
pub open spec fn has_path(paths: Seq<Seq<char>>, path: Seq<char>) -> bool {
    exists|i: int| 0 <= i < paths.len() && same_path(#[trigger] paths[i], path)
}

/// Whether the map records `path` under `hash`, as original or duplicate
/// (paths compared component by component).
pub open spec fn records_path(
    m: Map<Seq<char>, (Seq<char>, Seq<Seq<char>>)>,
    hash: Seq<char>,
    path: Seq<char>,
) -> bool {
    m.contains_key(hash) && (same_path(m[hash].0, path) || has_path(m[hash].1, path))
}

/// Whether some record of the map has `target` as original and `path` among
/// its duplicates (paths compared component by component).
pub open spec fn records_link(
    m: Map<Seq<char>, (Seq<char>, Seq<Seq<char>>)>,
    path: Seq<char>,
    target: Seq<char>,
) -> bool {
    exists|k: Seq<char>|
        #[trigger] m.contains_key(k) && same_path(m[k].0, target) && has_path(m[k].1, path)
}

/// A hard link passes only when one record has the link's target as its
/// original and the link among its duplicates; a link to any other place is
/// rejected even when the link itself is a recorded duplicate.
pub proof fn lemma_link_needs_its_original(
    m: Map<Seq<char>, (Seq<char>, Seq<Seq<char>>)>,
    path: Seq<char>,
    target: Seq<char>,
)
    requires
        records_link(m, path, target),
    ensures
        exists|k: Seq<char>|
            #[trigger] m.contains_key(k) && same_path(m[k].0, target) && exists|i: int|
                0 <= i < m[k].1.len() && same_path(#[trigger] m[k].1[i], path),
{
}

/// After recording `x` and then `y` under one hash, exactly the links from
/// (a path naming) `y` to (a path naming) `x` are described.
pub proof fn lemma_recorded_pair_describes_one_link(
    h: Seq<char>,
    x: Seq<char>,
    y: Seq<char>,
    path: Seq<char>,
    target: Seq<char>,
)
    ensures
        records_link(dedup_map_of(seq![(h, x), (h, y)]), path, target) == (same_path(x, target)
            && same_path(y, path)),
{
    let adds = seq![(h, x), (h, y)];
    assert(adds.drop_last() =~= seq![(h, x)]);
    assert(seq![(h, x)].drop_last() =~= Seq::<(Seq<char>, Seq<char>)>::empty());
    assert(dedup_map_of(Seq::<(Seq<char>, Seq<char>)>::empty()) == Map::<Seq<char>, (Seq<char>, Seq<Seq<char>>)>::empty());
    assert(seq![(h, x)].last() == (h, x));
    assert(adds.last() == (h, y));
    let m1 = dedup_map_add(Map::empty(), h, x);
    assert(dedup_map_of(seq![(h, x)]) == m1);
    let m = dedup_map_of(adds);
    assert(m == dedup_map_add(m1, h, y));
    assert(m1.contains_key(h) && m1[h] == (x, Seq::<Seq<char>>::empty()));
    assert(m.dom() =~= set![h]);
    assert(m[h].1 =~= seq![y]);
    assert(m[h].0 == x);
    if same_path(x, target) && same_path(y, path) {
        assert(same_path(m[h].1[0], path));
        assert(m.contains_key(h));
    }
}

/// After recording `x` under `h`, a stored file passes exactly when its
/// contents hash to `h` and its path names `x`.
pub proof fn lemma_recorded_original_describes_one_file(
    h: Seq<char>,
    x: Seq<char>,
    hash: Seq<char>,
    path: Seq<char>,
)
    ensures
        records_path(dedup_map_of(seq![(h, x)]), hash, path) == (hash == h && same_path(x, path)),
{
    let adds = seq![(h, x)];
    assert(adds.drop_last() =~= Seq::<(Seq<char>, Seq<char>)>::empty());
    assert(dedup_map_of(Seq::<(Seq<char>, Seq<char>)>::empty()) == Map::<Seq<char>, (Seq<char>, Seq<Seq<char>>)>::empty());
    assert(adds.last() == (h, x));
    let m = dedup_map_of(adds);
    assert(m == dedup_map_add(Map::empty(), h, x));
    assert(m.dom() =~= set![h]);
    assert(m[h] == (x, Seq::<Seq<char>>::empty()));
}

fn contains_path(paths: &Vec<String>, path: &String) -> (found: bool)
    ensures
        found == has_path(paths_view(paths@), path@),
{
    let n = paths.len();
    let mut i: usize = 0;
    while i < n
        invariant
            n == paths@.len(),
            i <= n,
            forall|j: int| 0 <= j < i ==> !same_path(#[trigger] paths_view(paths@)[j], path@),
        decreases n - i,
    {
        if paths_match(&paths[i], path) {
            assert(same_path(paths_view(paths@)[i as int], path@));
            return true;
        }
        i = i + 1;
    }
    false
}

/// Checks one entry read back from an archive against the deduplication
/// map, comparing paths component by component. The map's own entry is
/// skipped, and so is a stored file whose
/// contents could not be hashed (`content_hash` is `None`). A stored file
/// must be recorded under the hexadecimal text of its hash; a hard link must
/// have a target, and some record must have that target as original and
/// the link among its duplicates. Other entries pass.
pub fn verify_entry(
    dedup_map: &DedupMap,
    map_name: &String,
    path: &String,
    kind: EntryKind,
    content_hash: Option<Vec<u8>>,
    link_name: Option<String>,
) -> (res: Result<(), VerifyError>)
    ensures
        same_path(path@, map_name@) ==> res is Ok,
        !same_path(path@, map_name@) ==> match kind {
            EntryKind::Regular => match content_hash {
                None => res is Ok,
                Some(h) => if records_path(dedup_map@, hex_encode(h@), path@) {
                    res is Ok
                } else {
                    res matches Err(VerifyError::NotInDedupMap { path: p, hash: x }) && p@ == path@
                        && x@ == hex_encode(h@)
                },
            },
            EntryKind::HardLink => match link_name {
                None => res matches Err(VerifyError::LinkWithoutTarget { path: p }) && p@ == path@,
                Some(t) => if records_link(dedup_map@, path@, t@) {
                    res is Ok
                } else {
                    res matches Err(VerifyError::LinkNotDescribed { path: p, target: x }) && p@ == path@
                        && x@ == t@
                },
            },
            EntryKind::Other => res is Ok,
        },
{
    if paths_match(path, map_name) {
        return Ok(());
    }
    match kind {
        EntryKind::Regular => {
            match content_hash {
                None => Ok(()),
                Some(h) => {
                    let hash = hex_string(&h);
                    let matches_original = match dedup_map.get_originals(hash.as_str()) {
                        Some(original) => paths_match(original, path),
                        None => false,
                    };
                    let matches_duplicate = match dedup_map.get_duplicates(hash.as_str()) {
                        Some(dups) => contains_path(dups, path),
                        None => false,
                    };
                    if matches_original || matches_duplicate {
                        Ok(())
                    } else {
                        Err(VerifyError::NotInDedupMap { path: path.clone(), hash })
                    }
                },
            }
        },
        EntryKind::HardLink => {
            match link_name {
                None => Err(VerifyError::LinkWithoutTarget { path: path.clone() }),
                Some(target) => {
                    let originals = dedup_map.iter_originals();
                    let n = originals.len();
                    let mut found = false;
                    let mut i: usize = 0;
                    while i < n
                        invariant
                            n == originals@.len(),
                            i <= n,
                            forall|j: int|
                                0 <= j < originals@.len() ==> {
                                    &&& dedup_map@.contains_key((#[trigger] originals@[j]).0@)
                                    &&& originals@[j].1@ == dedup_map@[originals@[j].0@].0
                                },
                            forall|k: Seq<char>|
                                #[trigger] dedup_map@.contains_key(k) ==> exists|j: int|
                                    0 <= j < originals@.len() && (#[trigger] originals@[j]).0@ == k,
                            found ==> records_link(dedup_map@, path@, target@),
                            !found ==> forall|j: int|
                                0 <= j < i ==> !(same_path(dedup_map@[(#[trigger] originals@[j]).0@].0, target@)
                                    && has_path(dedup_map@[originals@[j].0@].1, path@)),
                        ensures
                            found ==> records_link(dedup_map@, path@, target@),
                            !found ==> forall|j: int|
                                0 <= j < n ==> !(same_path(dedup_map@[(#[trigger] originals@[j]).0@].0, target@)
                                    && has_path(dedup_map@[originals@[j].0@].1, path@)),
                        decreases n - i,
                    {
                        let (hash, original) = (&originals[i].0, &originals[i].1);
                        if paths_match(original, &target) {
                            match dedup_map.get_duplicates(hash.as_str()) {
                                Some(dups) => {
                                    if contains_path(dups, path) {
                                        found = true;
                                        break;
                                    }
                                },
                                None => {},
                            }
                        }
                        i = i + 1;
                    }
                    if found {
                        Ok(())
                    } else {
                        proof {
                            if records_link(dedup_map@, path@, target@) {
                                let k = choose|k: Seq<char>| #[trigger] dedup_map@.contains_key(k)
                                    && same_path(dedup_map@[k].0, target@) && has_path(dedup_map@[k].1, path@);
                                let j = choose|j: int| 0 <= j < originals@.len() && (#[trigger] originals@[j]).0@ == k;
                                assert(!(same_path(dedup_map@[originals@[j].0@].0, target@)
                                    && has_path(dedup_map@[originals@[j].0@].1, path@)));
                            }
                        }
                        Err(VerifyError::LinkNotDescribed { path: path.clone(), target })
                    }
                },
            }
        },
        EntryKind::Other => Ok(()),
    }
}

/// Why the deduplication map could not be found at the end of an archive.
#[derive(Debug)]
pub enum DedupMapError {
    /// The archive has no entries.
    EmptyArchive,
    /// The last entry is not the deduplication map.
    NotAtEnd { last_path: String },
}

/// Picks the contents of the deduplication map from the last entry of an
/// archive (its path and contents; `None` for an archive without entries):
/// the map must be that entry, stored under `map_name` (paths compared
/// component by component).
pub fn select_dedup_map(last: Option<(String, Vec<u8>)>, map_name: &String) -> (res: Result<Vec<u8>, DedupMapError>)
    ensures
        match last {
            None => res matches Err(DedupMapError::EmptyArchive),
            Some((p, contents)) => if same_path(p@, map_name@) {
                res matches Ok(c) && c@ == contents@
            } else {
                res matches Err(DedupMapError::NotAtEnd { last_path: q }) && q@ == p@
            },
        },
{
    match last {
        None => Err(DedupMapError::EmptyArchive),
        Some((p, contents)) => {
            if paths_match(&p, map_name) {
                Ok(contents)
            } else {
                Err(DedupMapError::NotAtEnd { last_path: p })
            }
        },
    }
}

} // verus!
