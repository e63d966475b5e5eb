use vstd::prelude::*;
use vstd::hash_map::StringHashMap;
use sha2::Digest;
use crate::map::{FileInfo, hex_encode, is_hex_char, lemma_hex_encode_chars, lemma_hex_encode_injective};

verus! {

/// The running state of a SHA-256 computation from the `sha2` crate.
///
/// The state is held opaquely; `sha256_input` names the bytes that have
/// been fed into it so far.
#[verifier::external_body]
pub struct Sha256State {
    inner: sha2::Sha256,
}

/// The bytes fed into a SHA-256 state since it was created.
pub uninterp spec fn sha256_input(h: Sha256State) -> Seq<u8>;

/// The SHA-256 digest of a byte sequence, as `sha2` computes it.
pub uninterp spec fn sha256_digest(data: Seq<u8>) -> Seq<u8>;

/// `sha2::Sha256::new` (through `Digest::new`): a state that has been fed
/// nothing.
#[verifier::external_body]
fn sha256_new() -> (h: Sha256State)
    ensures
        sha256_input(h) == Seq::<u8>::empty(),
{
    Sha256State { inner: sha2::Sha256::new() }
}

/// `Digest::update` on `sha2::Sha256`: appends `data` to the bytes fed.
#[verifier::external_body]
fn sha256_update(h: &mut Sha256State, data: &[u8])
    ensures
        sha256_input(*final(h)) == sha256_input(*old(h)) + data@,
{
    Digest::update(&mut h.inner, data)
}

/// `Digest::finalize` on `sha2::Sha256`: the digest of all bytes fed, which
/// is 32 bytes long.
#[verifier::external_body]
fn sha256_finalize(h: Sha256State) -> (out: Vec<u8>)
    ensures
        out@ == sha256_digest(sha256_input(h)),
        out@.len() == 32,
{
    h.inner.finalize().to_vec()
}

/// Computes the SHA-256 digest of a file whose contents arrive in chunks.
///
/// Reading is left to the caller: it hands each chunk to `absorb`, which
/// says whether to go on, and takes the digest with `finish`.
pub struct FileHasher {
    state: Sha256State,
}

impl View for FileHasher {
    type V = Seq<u8>;

    closed spec fn view(&self) -> Seq<u8> {
        sha256_input(self.state)
    }
}

impl FileHasher {
    /// A hasher that has seen no bytes.
    pub fn new() -> (h: FileHasher)
        ensures
            h@ == Seq::<u8>::empty(),
    {
        FileHasher { state: sha256_new() }
    }

    /// Takes the next chunk read from the file. An empty chunk marks the end
    /// of the file: it is not absorbed and the result is `false`; any other
    /// chunk is absorbed and the result is `true`.
    pub fn absorb(&mut self, chunk: &[u8]) -> (more: bool)
        ensures
            more == (chunk@.len() > 0),
            final(self)@ == old(self)@ + chunk@,
    {
        if chunk.len() == 0 {
            assert(old(self)@ + chunk@ =~= old(self)@);
            false
        } else {
            sha256_update(&mut self.state, chunk);
            true
        }
    }

    /// The digest of all bytes absorbed.
    pub fn finish(self) -> (digest: Vec<u8>)
        ensures
            digest@ == sha256_digest(self@),
            digest@.len() == 32,
    {
        sha256_finalize(self.state)
    }
}

/// The key under which a file is grouped: its hash in hexadecimal; for a
/// symbolic link kept as a link, `symlink: ` followed by its path; for an
/// empty file, `empty: ` followed by its path. Links and empty files are so
/// never taken for copies of other files.
pub open spec fn file_key(f: FileInfo) -> Seq<char> {
    if f.link_target is Some {
        "symlink: "@ + f.path@
    } else if f.size == 0 {
        "empty: "@ + f.path@
    } else {
        hex_encode(f.hash@)
    }
}

/// The files of `m` under key `k`, none if `k` is absent.
pub open spec fn group_of(m: Map<Seq<char>, Seq<FileInfo>>, k: Seq<char>) -> Seq<FileInfo> {
    if m.contains_key(k) {
        m[k]
    } else {
        Seq::empty()
    }
}

/// What inserting a file does to a file map: the file goes last into the
/// group of its key.
pub open spec fn map_with_file(m: Map<Seq<char>, Seq<FileInfo>>, f: FileInfo) -> Map<
    Seq<char>,
    Seq<FileInfo>,
> {
    m.insert(file_key(f), group_of(m, file_key(f)).push(f))
}

/// What merging two file maps does: each key's group is the first map's
/// group followed by the second map's.
pub open spec fn merged_maps(m1: Map<Seq<char>, Seq<FileInfo>>, m2: Map<Seq<char>, Seq<FileInfo>>) -> Map<
    Seq<char>,
    Seq<FileInfo>,
> {
    Map::new(
        |k: Seq<char>| m1.contains_key(k) || m2.contains_key(k),
        |k: Seq<char>| group_of(m1, k) + group_of(m2, k),
    )
}

/// The grouping of a sequence of files: each key that some file has maps to
/// the files with that key, in their order.
pub open spec fn grouped(files: Seq<FileInfo>) -> Map<Seq<char>, Seq<FileInfo>> {
    Map::new(
        |k: Seq<char>| exists|i: int| 0 <= i < files.len() && file_key(#[trigger] files[i]) == k,
        |k: Seq<char>| files.filter(|f: FileInfo| file_key(f) == k),
    )
}

/// The files that share one key, in the order in which they were inserted.
pub struct FileGroup {
    pub(crate) key: String,
    pub(crate) files: Vec<FileInfo>,
}

/// Files grouped by their key (see `file_key`).
pub struct FileMap {
    index: StringHashMap<usize>,
    groups: Vec<FileGroup>,
}

impl View for FileMap {
    type V = Map<Seq<char>, Seq<FileInfo>>;

    closed spec fn view(&self) -> Self::V {
        Map::new(
            |k: Seq<char>| self.index@.contains_key(k),
            |k: Seq<char>| self.groups@[self.index@[k] as int].files@,
        )
    }
}

impl FileMap {
    #[verifier::type_invariant]
    closed spec fn well_formed(&self) -> bool {
        &&& forall|k: Seq<char>|
            #[trigger] self.index@.contains_key(k) ==> {
                &&& self.index@[k] < self.groups@.len()
                &&& self.groups@[self.index@[k] as int].key@ == k
            }
        &&& forall|i: int|
            0 <= i < self.groups@.len() ==> {
                &&& self.index@.contains_key(#[trigger] self.groups@[i].key@)
                &&& self.index@[self.groups@[i].key@] == i
                &&& self.groups@[i].files@.len() > 0
            }
    }

    /// The keys in the order in which their groups were created.
    pub closed spec fn key_order(&self) -> Seq<Seq<char>> {
        self.groups@.map_values(|g: FileGroup| g.key@)
    }

    /// The groups in the order in which they were created.
    pub closed spec fn groups_in_order(&self) -> Seq<Seq<FileInfo>> {
        self.groups@.map_values(|g: FileGroup| g.files@)
    }

    /// The number of groups.
    pub fn num_groups(&self) -> (n: usize)
        ensures
            n == self.key_order().len(),
            n == self.groups_in_order().len(),
            forall|k: Seq<char>|
                #[trigger] self@.contains_key(k) ==> exists|i: int|
                    0 <= i < n && #[trigger] self.key_order()[i] == k,
            forall|i: int|
                0 <= i < n ==> {
                    &&& self@.contains_key(#[trigger] self.key_order()[i])
                    &&& self@[self.key_order()[i]] == self.groups_in_order()[i]
                    &&& self.groups_in_order()[i].len() > 0
                },
            forall|i: int, j: int|
                0 <= i < j < n ==> #[trigger] self.key_order()[i] != #[trigger] self.key_order()[j],
    {
        proof {
            use_type_invariant(self);
            assert forall|i: int, j: int|
                0 <= i < j < self.groups@.len() implies #[trigger] self.key_order()[i] != #[trigger] self.key_order()[j] by {
                assert(self.index@.contains_key(self.groups@[i].key@));
                assert(self.index@.contains_key(self.groups@[j].key@));
            }
            assert forall|i: int| 0 <= i < self.groups@.len() implies {
                &&& self@.contains_key(#[trigger] self.key_order()[i])
                &&& self@[self.key_order()[i]] == self.groups_in_order()[i]
                &&& self.groups_in_order()[i].len() > 0
            } by {
                assert(self.index@.contains_key(self.groups@[i].key@));
            }
            assert forall|k: Seq<char>| #[trigger] self@.contains_key(k) implies exists|i: int|
                0 <= i < self.groups@.len() && #[trigger] self.key_order()[i] == k by {
                assert(self.key_order()[self.index@[k] as int] == k);
            }
        }
        self.groups.len()
    }

    /// The key and the files of the group created `i`-th.
    pub fn group(&self, i: usize) -> (res: (&String, &Vec<FileInfo>))
        requires
            i < self.key_order().len(),
        ensures
            res.0@ == self.key_order()[i as int],
            res.1@ == self.groups_in_order()[i as int],
            self@.contains_key(res.0@),
            self@[res.0@] == res.1@,
            res.1@.len() > 0,
            forall|j: int|
                0 <= j < self.key_order().len() && j != i ==> #[trigger] self.key_order()[j] != res.0@,
    {
        proof {
            use_type_invariant(self);
            assert forall|j: int|
                0 <= j < self.key_order().len() && j != i implies #[trigger] self.key_order()[j] != self.groups@[i as int].key@ by {
                assert(self.index@.contains_key(self.groups@[j].key@));
            }
        }
        let g = &self.groups[i];
        (&g.key, &g.files)
    }

    /// An empty file map.
    pub fn new() -> (m: FileMap)
        ensures
            m@ == Map::<Seq<char>, Seq<FileInfo>>::empty(),
            m.key_order() == Seq::<Seq<char>>::empty(),
    {
        let m = FileMap { index: StringHashMap::new(), groups: Vec::new() };
        assert(m@ =~= Map::<Seq<char>, Seq<FileInfo>>::empty());
        assert(m.key_order() =~= Seq::<Seq<char>>::empty());
        m
    }

    /// Appends `files` to the group of `key`, creating it if it is new.
    fn append_group(self, key: String, files: Vec<FileInfo>) -> (res: FileMap)
        requires
            files@.len() > 0,
        ensures
            res@ == self@.insert(key@, group_of(self@, key@) + files@),
            res.key_order() == (if self@.contains_key(key@) {
                self.key_order()
            } else {
                self.key_order().push(key@)
            }),
    {
        proof {
            use_type_invariant(&self);
        }
        let ghost before = self@;
        let ghost order_before = self.key_order();
        let FileMap { mut index, mut groups } = self;
        let mut files = files;
        match index.get(key.as_str()) {
            Some(pos) => {
                let i = *pos;
                let ghost old_groups = groups@;
                let ghost new_files = files@;
                let mut current = Vec::new();
                std::mem::swap(&mut current, &mut groups[i].files);
                current.append(&mut files);
                std::mem::swap(&mut current, &mut groups[i].files);
                assert(groups@[i as int].files@ == old_groups[i as int].files@ + new_files);
                assert(groups@[i as int].key == old_groups[i as int].key);
                assert(forall|j: int| 0 <= j < groups@.len() && j != i ==> groups@[j] == old_groups[j]);
                assert forall|j: int| 0 <= j < groups@.len() implies {
                    &&& index@.contains_key(#[trigger] groups@[j].key@)
                    &&& index@[groups@[j].key@] == j
                    &&& groups@[j].files@.len() > 0
                } by {
                    assert(index@.contains_key(old_groups[j].key@));
                    assert(old_groups[j].files@.len() > 0);
                }
                let res = FileMap { index, groups };
                assert(res@ =~= before.insert(key@, group_of(before, key@) + new_files));
                assert(res.key_order() =~= order_before);
                res
            },
            None => {
                let n = groups.len();
                let ghost new_files = files@;
                groups.push(FileGroup { key: key.clone(), files });
                index.insert(key, n);
                let res = FileMap { index, groups };
                assert(group_of(before, key@) + new_files =~= new_files);
                assert(res@ =~= before.insert(key@, group_of(before, key@) + new_files));
                assert(res.key_order() =~= order_before.push(key@));
                res
            },
        }
    }
}

/// The key of a file as text.
fn key_of(file: &FileInfo) -> (key: String)
    ensures
        key@ == file_key(*file),
{
    if file.is_symlink() {
        let mut key = String::from_str("symlink: ");
        key.append(file.path.as_str());
        key
    } else if file.is_empty() {
        let mut key = String::from_str("empty: ");
        key.append(file.path.as_str());
        key
    } else {
        file.hash_to_hex()
    }
}

/// Inserts a file into the file map, last in the group of its key.
pub fn insert_into_file_map(acc: FileMap, file: FileInfo) -> (res: FileMap)
    ensures
        res@ == map_with_file(acc@, file),
        res.key_order() == (if acc@.contains_key(file_key(file)) {
            acc.key_order()
        } else {
            acc.key_order().push(file_key(file))
        }),
{
    let key = key_of(&file);
    let ghost f = file;
    let v = vec![file];
    assert(v@ =~= seq![f]);
    let res = acc.append_group(key, v);
    assert(group_of(acc@, file_key(f)) + seq![f] =~= group_of(acc@, file_key(f)).push(f));
    assert(res@ =~= map_with_file(acc@, f));
    res
}

/// Merges two file maps: each group of the second map is appended to the
/// group of the same key in the first.
pub fn merge_file_maps(map1: FileMap, map2: FileMap) -> (res: FileMap)
    ensures
        res@ == merged_maps(map1@, map2@),
        res.key_order() == map1.key_order() + map2.key_order().filter(
            |k: Seq<char>| !map1@.contains_key(k),
        ),
{
    proof {
        use_type_invariant(&map2);
    }
    let ghost m1 = map1@;
    let ghost m2 = map2@;
    let ghost ko1 = map1.key_order();
    let ghost ko2 = map2.key_order();
    let ghost p = |k: Seq<char>| !m1.contains_key(k);
    let FileMap { index: index2, groups: mut groups2 } = map2;
    let ghost idx2 = index2@;
    let ghost orig2 = groups2@;
    let mut acc = map1;
    let n = groups2.len();
    let mut i: usize = 0;
    proof {
        reveal(Seq::filter);
        assert(ko2.take(0) =~= Seq::<Seq<char>>::empty());
        assert(acc.key_order() =~= ko1 + ko2.take(0).filter(p));
    }
    while i < n
        invariant
            ko2 == orig2.map_values(|g: FileGroup| g.key@),
            p == (|k: Seq<char>| !m1.contains_key(k)),
            acc.key_order() == ko1 + ko2.take(i as int).filter(p),
            n == groups2@.len(),
            n == orig2.len(),
            i <= n,
            forall|j: int| i <= j < n ==> groups2@[j] == orig2[j],
            forall|k: Seq<char>|
                #[trigger] idx2.contains_key(k) ==> {
                    &&& idx2[k] < orig2.len()
                    &&& orig2[idx2[k] as int].key@ == k
                },
            forall|j: int|
                0 <= j < orig2.len() ==> {
                    &&& idx2.contains_key(#[trigger] orig2[j].key@)
                    &&& idx2[orig2[j].key@] == j
                    &&& orig2[j].files@.len() > 0
                },
            forall|k: Seq<char>| #[trigger]
                m2.contains_key(k) == idx2.contains_key(k),
            forall|k: Seq<char>|
                #[trigger] m2.contains_key(k) ==> m2[k] == orig2[idx2[k] as int].files@,
            forall|k: Seq<char>| #[trigger]
                acc@.contains_key(k) == (m1.contains_key(k) || (idx2.contains_key(k) && idx2[k] < i)),
            forall|k: Seq<char>|
                #[trigger] acc@.contains_key(k) ==> acc@[k] == group_of(m1, k) + (if idx2.contains_key(k)
                    && idx2[k] < i {
                    orig2[idx2[k] as int].files@
                } else {
                    Seq::<FileInfo>::empty()
                }),
        decreases n - i,
    {
        let mut group = FileGroup { key: String::new(), files: Vec::new() };
        std::mem::swap(&mut group, &mut groups2[i]);
        let FileGroup { key, files } = group;
        let ghost k_i = key@;
        let ghost prev = acc@;
        assert(k_i == orig2[i as int].key@);
        assert(idx2.contains_key(k_i) && idx2[k_i] == i);
        let ghost ko_prev = acc.key_order();
        acc = acc.append_group(key, files);
        proof {
            reveal(Seq::filter);
            assert(ko2.take(i + 1).drop_last() =~= ko2.take(i as int));
            assert(ko2.take(i + 1).last() == k_i);
            if prev.contains_key(k_i) {
                assert(m1.contains_key(k_i));
            }
            assert(acc.key_order() =~= ko1 + ko2.take(i + 1).filter(p));
            assert forall|k: Seq<char>| #[trigger]
                acc@.contains_key(k) == (m1.contains_key(k) || (idx2.contains_key(k) && idx2[k] < i + 1)) by {
                if idx2.contains_key(k) && idx2[k] == i {
                    assert(orig2[idx2[k] as int].key@ == k);
                }
            }
            assert forall|k: Seq<char>| #[trigger] acc@.contains_key(k) implies acc@[k] == group_of(m1, k) + (
            if idx2.contains_key(k) && idx2[k] < i + 1 {
                orig2[idx2[k] as int].files@
            } else {
                Seq::<FileInfo>::empty()
            }) by {
                if k == k_i {
                    if prev.contains_key(k) {
                        assert(prev[k] =~= group_of(m1, k) + Seq::<FileInfo>::empty());
                    } else {
                        assert(!m1.contains_key(k));
                        assert(group_of(m1, k) + orig2[i as int].files@ =~= orig2[i as int].files@);
                        assert(Seq::<FileInfo>::empty() + orig2[i as int].files@ =~= orig2[i as int].files@);
                    }
                } else {
                    if idx2.contains_key(k) && idx2[k] == i {
                        assert(orig2[idx2[k] as int].key@ == k);
                    }
                }
            }
        }
        i = i + 1;
    }
    proof {
        assert forall|k: Seq<char>| #[trigger] acc@.contains_key(k) implies acc@[k] == group_of(m1, k)
            + group_of(m2, k) by {
            if !idx2.contains_key(k) {
                assert(group_of(m1, k) + Seq::<FileInfo>::empty() =~= group_of(m1, k));
            }
        }
        assert(acc@ =~= merged_maps(m1, m2));
        assert(ko2.take(n as int) =~= ko2);
    }
    acc
}

proof fn lemma_filter_none<A>(s: Seq<A>, p: spec_fn(A) -> bool)
    requires
        forall|i: int| 0 <= i < s.len() ==> !p(#[trigger] s[i]),
    ensures
        s.filter(p) == Seq::<A>::empty(),
    decreases s.len(),
{
    reveal(Seq::filter);
    if s.len() > 0 {
        assert forall|i: int| 0 <= i < s.drop_last().len() implies !p(#[trigger] s.drop_last()[i]) by {
            assert(s.drop_last()[i] == s[i]);
        }
        lemma_filter_none(s.drop_last(), p);
    }
}

proof fn lemma_group_of_grouped(s: Seq<FileInfo>, k: Seq<char>)
    ensures
        group_of(grouped(s), k) == s.filter(|f: FileInfo| file_key(f) == k),
{
    if !grouped(s).contains_key(k) {
        lemma_filter_none(s, |f: FileInfo| file_key(f) == k);
    }
}

/// An empty file map is the grouping of no files.
pub proof fn lemma_grouped_empty()
    ensures
        grouped(Seq::<FileInfo>::empty()) == Map::<Seq<char>, Seq<FileInfo>>::empty(),
{
    assert(grouped(Seq::<FileInfo>::empty()) =~= Map::<Seq<char>, Seq<FileInfo>>::empty());
}

/// Inserting a file into the grouping of some files gives the grouping of
/// those files followed by it: a file map filled by `insert_into_file_map`
/// groups all files inserted, each group in insertion order.
pub proof fn lemma_insert_extends_grouping(s: Seq<FileInfo>, f: FileInfo)
    ensures
        map_with_file(grouped(s), f) == grouped(s.push(f)),
{
    let t = s.push(f);
    assert(t.drop_last() =~= s);
    assert forall|k: Seq<char>| #[trigger] grouped(t).contains_key(k) == map_with_file(grouped(s), f).contains_key(k) by {
        if grouped(s).contains_key(k) {
            let i = choose|i: int| 0 <= i < s.len() && file_key(#[trigger] s[i]) == k;
            assert(t[i] == s[i]);
        }
        if grouped(t).contains_key(k) && k != file_key(f) {
            let i = choose|i: int| 0 <= i < t.len() && file_key(#[trigger] t[i]) == k;
            assert(s[i] == t[i]);
        }
        if k == file_key(f) {
            assert(t[s.len() as int] == f);
        }
    }
    assert forall|k: Seq<char>| #[trigger] grouped(t).contains_key(k) implies grouped(t)[k] == map_with_file(grouped(s), f)[k] by {
        reveal(Seq::filter);
        lemma_group_of_grouped(s, k);
    }
    assert(map_with_file(grouped(s), f) =~= grouped(t));
}

/// Merging the groupings of two runs of files gives the grouping of the
/// two runs one after the other: however the files are split among
/// workers, folding each part and merging the parts in order groups all of
/// them as one sequential pass would.
pub proof fn lemma_merge_concatenates(a: Seq<FileInfo>, b: Seq<FileInfo>)
    ensures
        merged_maps(grouped(a), grouped(b)) == grouped(a + b),
{
    let t = a + b;
    assert forall|k: Seq<char>| #[trigger] grouped(t).contains_key(k) == merged_maps(grouped(a), grouped(b)).contains_key(k) by {
        if grouped(a).contains_key(k) {
            let i = choose|i: int| 0 <= i < a.len() && file_key(#[trigger] a[i]) == k;
            assert(t[i] == a[i]);
        }
        if grouped(b).contains_key(k) {
            let i = choose|i: int| 0 <= i < b.len() && file_key(#[trigger] b[i]) == k;
            assert(t[a.len() + i] == b[i]);
        }
        if grouped(t).contains_key(k) {
            let i = choose|i: int| 0 <= i < t.len() && file_key(#[trigger] t[i]) == k;
            if i < a.len() {
                assert(a[i] == t[i]);
            } else {
                assert(b[i - a.len()] == t[i]);
            }
        }
    }
    assert forall|k: Seq<char>| #[trigger] grouped(t).contains_key(k) implies grouped(t)[k] == merged_maps(grouped(a), grouped(b))[k] by {
        lemma_group_of_grouped(a, k);
        lemma_group_of_grouped(b, k);
        Seq::filter_distributes_over_add(a, b, |f: FileInfo| file_key(f) == k);
    }
    assert(merged_maps(grouped(a), grouped(b)) =~= grouped(t));
}

/// Files (not kept as links) with the same non-empty contents land in the
/// same group: both are in the group of the hexadecimal text of their hash.
pub proof fn lemma_identical_files_share_group(s: Seq<FileInfo>, i: int, j: int)
    requires
        0 <= i < s.len(),
        0 <= j < s.len(),
        s[i].link_target is None,
        s[j].link_target is None,
        s[i].size != 0,
        s[j].size != 0,
        s[i].hash@ == s[j].hash@,
    ensures
        grouped(s).contains_key(hex_encode(s[i].hash@)),
        grouped(s)[hex_encode(s[i].hash@)].contains(s[i]),
        grouped(s)[hex_encode(s[i].hash@)].contains(s[j]),
{
    let k = hex_encode(s[i].hash@);
    assert(file_key(s[i]) == k);
    assert(file_key(s[j]) == k);
    s.lemma_filter_contains(|f: FileInfo| file_key(f) == k, i);
    s.lemma_filter_contains(|f: FileInfo| file_key(f) == k, j);
}

/// A symbolic link kept as a link is never grouped with other files: every
/// member of its group is a link kept as a link, at the same path.
pub proof fn lemma_symlink_groups_only_itself(s: Seq<FileInfo>, k: Seq<char>, i: int, j: int)
    requires
        grouped(s).contains_key(k),
        0 <= i < grouped(s)[k].len(),
        0 <= j < grouped(s)[k].len(),
        grouped(s)[k][i].link_target is Some,
    ensures
        grouped(s)[k][j].link_target is Some,
        grouped(s)[k][j].path@ == grouped(s)[k][i].path@,
{
    lemma_group_members_share_key(s, k, i);
    lemma_group_members_share_key(s, k, j);
    lemma_same_key(grouped(s)[k][i], grouped(s)[k][j]);
}

/// Every file in a group has the group's key.
pub proof fn lemma_group_members_share_key(s: Seq<FileInfo>, k: Seq<char>, i: int)
    requires
        grouped(s).contains_key(k),
        0 <= i < grouped(s)[k].len(),
    ensures
        file_key(grouped(s)[k][i]) == k,
{
    s.lemma_filter_pred(|f: FileInfo| file_key(f) == k, i);
}

/// Two files have the same key only when both are symbolic links kept as
/// links with the same path, or both are empty non-links with the same
/// path, or both are non-empty non-links with the same hash: files are taken
/// for copies of each other exactly when their contents hash alike, and a
/// link is never grouped with anything but itself.
pub proof fn lemma_same_key(f: FileInfo, g: FileInfo)
    requires
        file_key(f) == file_key(g),
    ensures
        (f.link_target is Some) == (g.link_target is Some),
        f.link_target is Some ==> f.path@ == g.path@,
        f.link_target is None ==> (f.size == 0) == (g.size == 0),
        f.link_target is None && f.size == 0 ==> f.path@ == g.path@,
        f.link_target is None && f.size != 0 ==> f.hash@ == g.hash@,
{
    reveal_strlit("empty: ");
    reveal_strlit("symlink: ");
    let e = "empty: "@;
    let l = "symlink: "@;
    assert(e.len() == 7 && e[0] == 'e' && e[5] == ':');
    assert(l.len() == 9 && l[0] == 's' && l[7] == ':');
    lemma_hex_encode_chars(f.hash@);
    lemma_hex_encode_chars(g.hash@);
    let kf = file_key(f);
    let kg = file_key(g);
    if f.link_target is Some && g.link_target is None {
        assert(kf[0] == 's');
        if g.size == 0 {
            assert(kg[0] == 'e');
        } else {
            assert(kf[7] == ':');
            assert(is_hex_char(hex_encode(g.hash@)[7]));
        }
    } else if f.link_target is None && g.link_target is Some {
        assert(kg[0] == 's');
        if f.size == 0 {
            assert(kf[0] == 'e');
        } else {
            assert(kg[7] == ':');
            assert(is_hex_char(hex_encode(f.hash@)[7]));
        }
    } else if f.link_target is Some {
        assert(f.path@ =~= kf.skip(9));
        assert(g.path@ =~= kg.skip(9));
    } else if f.size == 0 && g.size != 0 {
        assert(kf[5] == ':');
        assert(is_hex_char(hex_encode(g.hash@)[5]));
    } else if f.size != 0 && g.size == 0 {
        assert(kg[5] == ':');
        assert(is_hex_char(hex_encode(f.hash@)[5]));
    } else if f.size == 0 {
        assert(f.path@ =~= kf.skip(7));
        assert(g.path@ =~= kg.skip(7));
    } else {
        lemma_hex_encode_injective(f.hash@, g.hash@);
    }
}

} // verus!
