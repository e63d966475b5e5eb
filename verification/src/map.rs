use vstd::prelude::*;
use crate::error::DtarError;
use vstd::hash_map::StringHashMap;

verus! {

/// The lowercase hexadecimal digit for a nibble (`n < 16`).
pub open spec fn hex_digit(n: u8) -> char {
    if n < 10 {
        (n + 48) as char
    } else {
        (n + 87) as char
    }
}

/// The two lowercase hexadecimal digits of one byte, high nibble first.
pub open spec fn hex_byte(b: u8) -> Seq<char> {
    seq![hex_digit(b / 16), hex_digit(b % 16)]
}

/// The lowercase hexadecimal encoding of a byte sequence, two digits per byte.
pub open spec fn hex_encode(bytes: Seq<u8>) -> Seq<char>
    decreases bytes.len(),
{
    if bytes.len() == 0 {
        Seq::empty()
    } else {
        hex_encode(bytes.drop_last()) + hex_byte(bytes.last())
    }
}

/// Every byte becomes exactly two hexadecimal digits.
pub proof fn lemma_hex_encode_len(bytes: Seq<u8>)
    ensures
        hex_encode(bytes).len() == 2 * bytes.len(),
    decreases bytes.len(),
{
    if bytes.len() > 0 {
        lemma_hex_encode_len(bytes.drop_last());
    }
}

proof fn lemma_hex_digit_injective(a: u8, b: u8)
    requires
        a < 16,
        b < 16,
        hex_digit(a) == hex_digit(b),
    ensures
        a == b,
{
    assert((hex_digit(a) as u32) == (if a < 10 { a + 48 } else { a + 87 }));
    assert((hex_digit(b) as u32) == (if b < 10 { b + 48 } else { b + 87 }));
}

proof fn lemma_hex_byte_injective(a: u8, b: u8)
    requires
        hex_byte(a) == hex_byte(b),
    ensures
        a == b,
{
    assert(hex_byte(a)[0] == hex_byte(b)[0]);
    assert(hex_byte(a)[1] == hex_byte(b)[1]);
    lemma_hex_digit_injective(a / 16, b / 16);
    lemma_hex_digit_injective(a % 16, b % 16);
}

/// Whether a character is a lowercase hexadecimal digit.
pub open spec fn is_hex_char(c: char) -> bool {
    ('0' <= c && c <= '9') || ('a' <= c && c <= 'f')
}

/// Every character of an encoding is a lowercase hexadecimal digit.
pub proof fn lemma_hex_encode_chars(bytes: Seq<u8>)
    ensures
        forall|i: int| 0 <= i < hex_encode(bytes).len() ==> is_hex_char(#[trigger] hex_encode(bytes)[i]),
    decreases bytes.len(),
{
    if bytes.len() > 0 {
        lemma_hex_encode_chars(bytes.drop_last());
        let b = bytes.last();
        assert((hex_digit(b / 16) as u32) == (if b / 16 < 10 { b / 16 + 48 } else { b / 16 + 87 }));
        assert((hex_digit(b % 16) as u32) == (if b % 16 < 10 { b % 16 + 48 } else { b % 16 + 87 }));
        let p = hex_encode(bytes.drop_last());
        assert forall|i: int| 0 <= i < hex_encode(bytes).len() implies is_hex_char(#[trigger] hex_encode(bytes)[i]) by {
            if i < p.len() {
                assert(hex_encode(bytes)[i] == p[i]);
            }
        }
    }
}

/// The number a lowercase hexadecimal digit stands for.
pub open spec fn hex_char_value(c: char) -> int {
    if '0' <= c && c <= '9' {
        c as int - '0' as int
    } else {
        c as int - 'a' as int + 10
    }
}

/// Each byte is written as two digits, most significant first: the digits
/// at `2i` and `2i + 1` read back as byte `i`.
pub proof fn lemma_hex_encode_digits(bytes: Seq<u8>, i: int)
    requires
        0 <= i < bytes.len(),
    ensures
        hex_encode(bytes).len() == 2 * bytes.len(),
        is_hex_char(hex_encode(bytes)[2 * i]),
        is_hex_char(hex_encode(bytes)[2 * i + 1]),
        hex_char_value(hex_encode(bytes)[2 * i]) * 16 + hex_char_value(hex_encode(bytes)[2 * i + 1])
            == bytes[i] as int,
    decreases bytes.len(),
{
    lemma_hex_encode_len(bytes);
    lemma_hex_encode_chars(bytes);
    let p = hex_encode(bytes.drop_last());
    lemma_hex_encode_len(bytes.drop_last());
    if i < bytes.len() - 1 {
        lemma_hex_encode_digits(bytes.drop_last(), i);
        assert(hex_encode(bytes)[2 * i] == p[2 * i]);
        assert(hex_encode(bytes)[2 * i + 1] == p[2 * i + 1]);
    } else {
        let b = bytes.last();
        assert(hex_encode(bytes)[2 * i] == hex_digit(b / 16));
        assert(hex_encode(bytes)[2 * i + 1] == hex_digit(b % 16));
        assert((hex_digit(b / 16) as u32) == (if b / 16 < 10 { b / 16 + 48 } else { b / 16 + 87 }));
        assert((hex_digit(b % 16) as u32) == (if b % 16 < 10 { b % 16 + 48 } else { b % 16 + 87 }));
    }
}

/// The hexadecimal encoding is injective: two hashes give the same text
/// only when they are the same bytes, so grouping files by the text of their
/// hash groups exactly the files whose hashes agree.
pub proof fn lemma_hex_encode_injective(a: Seq<u8>, b: Seq<u8>)
    requires
        hex_encode(a) == hex_encode(b),
    ensures
        a == b,
    decreases a.len(),
{
    lemma_hex_encode_len(a);
    lemma_hex_encode_len(b);
    if a.len() > 0 {
        let ea = hex_encode(a);
        let eb = hex_encode(b);
        let pa = hex_encode(a.drop_last());
        let pb = hex_encode(b.drop_last());
        lemma_hex_encode_len(a.drop_last());
        lemma_hex_encode_len(b.drop_last());
        assert(pa =~= ea.subrange(0, ea.len() - 2));
        assert(pb =~= eb.subrange(0, eb.len() - 2));
        assert(hex_byte(a.last()) =~= ea.subrange(ea.len() - 2, ea.len() as int));
        assert(hex_byte(b.last()) =~= eb.subrange(eb.len() - 2, eb.len() as int));
        lemma_hex_byte_injective(a.last(), b.last());
        lemma_hex_encode_injective(a.drop_last(), b.drop_last());
        assert(a =~= a.drop_last().push(a.last()));
        assert(b =~= b.drop_last().push(b.last()));
    }
}

/// A path with every leading `/` removed.
pub open spec fn trim_leading_slashes(s: Seq<char>) -> Seq<char>
    decreases s.len(),
{
    if s.len() > 0 && s[0] == '/' {
        trim_leading_slashes(s.drop_first())
    } else {
        s
    }
}

/// Trimming removes only `/` characters, all from the front: the path is a
/// run of `/` followed by the result, which does not start with `/`; so a
/// path that does not start with `/` is left unchanged, and trimming again
/// changes nothing.
pub proof fn lemma_trim_leading_slashes(s: Seq<char>)
    ensures
        trim_leading_slashes(s).len() <= s.len(),
        forall|i: int| 0 <= i < s.len() - trim_leading_slashes(s).len() ==> #[trigger] s[i] == '/',
        !(s.len() > 0 && s[0] == '/') ==> trim_leading_slashes(s) == s,
        trim_leading_slashes(s) =~= s.skip(s.len() - trim_leading_slashes(s).len()),
        trim_leading_slashes(s).len() > 0 ==> trim_leading_slashes(s)[0] != '/',
        trim_leading_slashes(trim_leading_slashes(s)) == trim_leading_slashes(s),
    decreases s.len(),
{
    if s.len() > 0 && s[0] == '/' {
        lemma_trim_leading_slashes(s.drop_first());
        let t = trim_leading_slashes(s.drop_first());
        assert(s.drop_first().skip(s.drop_first().len() - t.len()) =~= s.skip(s.len() - t.len()));
        assert forall|i: int| 0 <= i < s.len() - t.len() implies #[trigger] s[i] == '/' by {
            if i > 0 {
                assert(s[i] == s.drop_first()[i - 1]);
            }
        }
    } else {
        assert(s.skip(0) =~= s);
    }
}

#[verifier::external_body]
pub(crate) fn string_push(s: &mut String, c: char)
    ensures
        final(s)@ == old(s)@.push(c),
{
    s.push(c)
}

fn nibble_char(n: u8) -> (c: char)
    requires
        n < 16,
    ensures
        c == hex_digit(n),
{
    if n < 10 {
        (n + 48) as char
    } else {
        (n + 87) as char
    }
}

/// The lowercase hexadecimal representation of some bytes.
pub fn hex_string(bytes: &Vec<u8>) -> (hex: String)
    ensures
        hex@ == hex_encode(bytes@),
{
    let mut out = String::new();
    let n = bytes.len();
    let mut i: usize = 0;
    while i < n
        invariant
            n == bytes@.len(),
            i <= n,
            out@ == hex_encode(bytes@.take(i as int)),
        decreases n - i,
    {
        let b = bytes[i];
        proof {
            assert(bytes@.take(i + 1).drop_last() =~= bytes@.take(i as int));
        }
        string_push(&mut out, nibble_char(b / 16));
        string_push(&mut out, nibble_char(b % 16));
        i = i + 1;
        assert(out@ =~= hex_encode(bytes@.take(i as int)));
    }
    assert(bytes@.take(n as int) =~= bytes@);
    out
}

/// Information about one file of the tree being archived: its path, the
/// SHA-256 digest of its contents, its size and its owner, and, for a
/// symbolic link that is kept as a link, the path it points to.
#[derive(Debug, Clone)]
pub struct FileInfo {
    pub path: String,
    pub hash: Vec<u8>,
    pub size: u64,
    pub uid: u32,
    pub gid: u32,
    pub link_target: Option<String>,
}

impl FileInfo {
    /// A file with the given path, size and owner, whose hash is not yet known.
    pub fn new(path: String, size: u64, uid: u32, gid: u32) -> (info: FileInfo)
        ensures
            info.path@ == path@,
            info.hash@ == Seq::<u8>::empty(),
            info.size == size,
            info.uid == uid,
            info.gid == gid,
            info.link_target is None,
    {
        FileInfo { path, hash: Vec::new(), size, uid, gid, link_target: None }
    }

    /// A symbolic link at `path` pointing to `target`, to be archived as a
    /// link rather than as the file it points to.
    pub fn new_symlink(path: String, size: u64, uid: u32, gid: u32, target: String) -> (info: FileInfo)
        ensures
            info.path@ == path@,
            info.hash@ == Seq::<u8>::empty(),
            info.size == size,
            info.uid == uid,
            info.gid == gid,
            info.link_target matches Some(t) && t@ == target@,
    {
        FileInfo { path, hash: Vec::new(), size, uid, gid, link_target: Some(target) }
    }

    /// Whether the file is a symbolic link kept as a link; its contents are
    /// then not hashed.
    pub fn is_symlink(&self) -> (link: bool)
        ensures
            link == (self.link_target is Some),
    {
        self.link_target.is_some()
    }

    /// Sets the hash of this file.
    pub fn set_hash(self, hash: Vec<u8>) -> (res: Result<FileInfo, DtarError>)
        ensures
            res matches Ok(info) && info.hash@ == hash@ && info.path == self.path
                && info.size == self.size && info.uid == self.uid && info.gid == self.gid
                && info.link_target == self.link_target,
    {
        let mut info = self;
        info.hash = hash;
        Ok(info)
    }

    /// The path of the file.
    pub fn path_as_string(&self) -> (path: String)
        ensures
            path@ == self.path@,
    {
        self.path.clone()
    }

    /// The path with its leading slashes removed, as it is named in the archive.
    pub fn sanitize_path(&self) -> (name: String)
        ensures
            name@ == trim_leading_slashes(self.path@),
    {
        let s = self.path.as_str();
        let n = s.unicode_len();
        let mut i: usize = 0;
        assert(s@.skip(0) =~= s@);
        while i < n && s.get_char(i) == '/'
            invariant
                i <= n,
                n == s@.len(),
                s@ == self.path@,
                trim_leading_slashes(s@) == trim_leading_slashes(s@.skip(i as int)),
            decreases n - i,
        {
            assert(s@.skip(i as int).drop_first() =~= s@.skip(i + 1));
            i = i + 1;
        }
        let rest = s.substring_char(i, n);
        assert(rest@ =~= s@.skip(i as int));
        String::from_str(rest)
    }

    /// Whether the file has no content.
    pub fn is_empty(&self) -> (empty: bool)
        ensures
            empty == (self.size == 0),
    {
        self.size == 0
    }

    /// Converts the hash into its lowercase hexadecimal representation.
    pub fn hash_to_hex(&self) -> (hex: String)
        ensures
            hex@ == hex_encode(self.hash@),
    {
        hex_string(&self.hash)
    }
}

/// The views of a list of paths.
pub open spec fn paths_view(paths: Seq<String>) -> Seq<Seq<char>> {
    paths.map_values(|p: String| p@)
}

/// What recording `path` under `hash` does to a deduplication map: the
/// first path recorded under a hash is its original, every later one a
/// duplicate, in the order they were recorded.
pub open spec fn dedup_map_add(
    m: Map<Seq<char>, (Seq<char>, Seq<Seq<char>>)>,
    hash: Seq<char>,
    path: Seq<char>,
) -> Map<Seq<char>, (Seq<char>, Seq<Seq<char>>)> {
    if m.contains_key(hash) {
        m.insert(hash, (m[hash].0, m[hash].1.push(path)))
    } else {
        m.insert(hash, (path, Seq::empty()))
    }
}

/// The deduplication map built by recording each `(hash, path)` of `adds`,
/// in order, into an empty map.
pub open spec fn dedup_map_of(adds: Seq<(Seq<char>, Seq<char>)>) -> Map<
    Seq<char>,
    (Seq<char>, Seq<Seq<char>>),
>
    decreases adds.len(),
{
    if adds.len() == 0 {
        Map::empty()
    } else {
        dedup_map_add(dedup_map_of(adds.drop_last()), adds.last().0, adds.last().1)
    }
}

/// The paths recorded under `hash` by `adds`, in order.
pub open spec fn recorded_under(adds: Seq<(Seq<char>, Seq<char>)>, hash: Seq<char>) -> Seq<Seq<char>> {
    adds.filter(|a: (Seq<char>, Seq<char>)| a.0 == hash).map_values(|a: (Seq<char>, Seq<char>)| a.1)
}

/// After any sequence of `add_file` calls on a new map, a hash is present
/// exactly when some call recorded a path under it; its original is the
/// first such path and its duplicates are all later ones, in order.
pub proof fn lemma_dedup_map_of_adds(adds: Seq<(Seq<char>, Seq<char>)>, hash: Seq<char>)
    ensures
        dedup_map_of(adds).contains_key(hash) == (recorded_under(adds, hash).len() > 0),
        recorded_under(adds, hash).len() > 0 ==> dedup_map_of(adds)[hash] == (
            recorded_under(adds, hash)[0],
            recorded_under(adds, hash).skip(1),
        ),
    decreases adds.len(),
{
    reveal(Seq::filter);
    if adds.len() > 0 {
        let prev = adds.drop_last();
        let x = adds.last();
        lemma_dedup_map_of_adds(prev, hash);
        let pred = |a: (Seq<char>, Seq<char>)| a.0 == hash;
        let snd = |a: (Seq<char>, Seq<char>)| a.1;
        let r0 = recorded_under(prev, hash);
        let r = recorded_under(adds, hash);
        if x.0 == hash {
            assert(adds.filter(pred) == prev.filter(pred).push(x));
            assert(r =~= r0.push(x.1));
            if r0.len() > 0 {
                assert(r.skip(1) =~= r0.skip(1).push(x.1));
            } else {
                assert(r.skip(1) =~= Seq::<Seq<char>>::empty());
            }
        } else {
            assert(adds.filter(pred) == prev.filter(pred));
            assert(r =~= r0);
        }
    } else {
        assert(recorded_under(adds, hash) =~= Seq::<Seq<char>>::empty());
    }
}

/// One record of the deduplication map: the file stored in the archive and
/// the files stored as hard links to it.
pub struct DedupEntry {
    pub(crate) hash: String,
    pub(crate) original: String,
    pub(crate) duplicates: Vec<String>,
}

/// For each content hash, the path stored as a file in the archive and the
/// paths stored as hard links to it.
pub struct DedupMap {
    index: StringHashMap<usize>,
    entries: Vec<DedupEntry>,
}

impl View for DedupMap {
    type V = Map<Seq<char>, (Seq<char>, Seq<Seq<char>>)>;

    closed spec fn view(&self) -> Self::V {
        Map::new(
            |k: Seq<char>| self.index@.contains_key(k),
            |k: Seq<char>|
                {
                    let e = self.entries@[self.index@[k] as int];
                    (e.original@, paths_view(e.duplicates@))
                },
        )
    }
}

impl DedupMap {
    #[verifier::type_invariant]
    closed spec fn well_formed(&self) -> bool {
        &&& forall|k: Seq<char>|
            #[trigger] self.index@.contains_key(k) ==> {
                &&& self.index@[k] < self.entries@.len()
                &&& self.entries@[self.index@[k] as int].hash@ == k
            }
        &&& forall|i: int|
            0 <= i < self.entries@.len() ==> {
                &&& self.index@.contains_key(#[trigger] self.entries@[i].hash@)
                &&& self.index@[self.entries@[i].hash@] == i
            }
    }

    /// The hashes in the order in which they were first recorded.
    pub closed spec fn hash_order(&self) -> Seq<Seq<char>> {
        self.entries@.map_values(|e: DedupEntry| e.hash@)
    }

    /// An empty map.
    pub fn new() -> (m: DedupMap)
        ensures
            m@ == Map::<Seq<char>, (Seq<char>, Seq<Seq<char>>)>::empty(),
            m.hash_order() == Seq::<Seq<char>>::empty(),
    {
        let m = DedupMap { index: StringHashMap::new(), entries: Vec::new() };
        assert(m@ =~= Map::<Seq<char>, (Seq<char>, Seq<Seq<char>>)>::empty());
        assert(m.hash_order() =~= Seq::<Seq<char>>::empty());
        m
    }

    /// Records `path` under `hash`: as the original if the hash is new, else
    /// as one more duplicate.
    pub fn add_file(&mut self, hash: &String, path: String)
        ensures
            final(self)@ == dedup_map_add(old(self)@, hash@, path@),
            final(self).hash_order() == (if old(self)@.contains_key(hash@) {
                old(self).hash_order()
            } else {
                old(self).hash_order().push(hash@)
            }),
    {
        proof {
            use_type_invariant(&*self);
        }
        let mut taken = DedupMap::new();
        std::mem::swap(&mut taken, self);
        proof {
            use_type_invariant(&taken);
        }
        let ghost before = taken@;
        let ghost order_before = taken.hash_order();
        let DedupMap { mut index, mut entries } = taken;
        match index.get(hash.as_str()) {
            Some(pos) => {
                let i = *pos;
                let ghost e = entries@[i as int];
                let mut dups = Vec::new();
                std::mem::swap(&mut dups, &mut entries[i].duplicates);
                dups.push(path);
                std::mem::swap(&mut dups, &mut entries[i].duplicates);
                proof {
                    assert(paths_view(entries@[i as int].duplicates@) =~= paths_view(
                        e.duplicates@,
                    ).push(path@));
                }
                *self = DedupMap { index, entries };
                assert(self@ =~= dedup_map_add(before, hash@, path@));
                assert(self.hash_order() =~= order_before);
            },
            None => {
                let n = entries.len();
                entries.push(DedupEntry { hash: hash.clone(), original: path, duplicates: Vec::new() });
                index.insert(hash.clone(), n);
                *self = DedupMap { index, entries };
                assert(paths_view(Seq::<String>::empty()) =~= Seq::<Seq<char>>::empty());
                assert(self@ =~= dedup_map_add(before, hash@, path@));
                assert(self.hash_order() =~= order_before.push(hash@));
            },
        }
    }

    /// Each recorded hash with its original, in the order in which the
    /// hashes were first recorded.
    pub fn iter_originals(&self) -> (res: Vec<(String, String)>)
        ensures
            res@.len() == self.hash_order().len(),
            forall|i: int|
                0 <= i < res@.len() ==> {
                    &&& (#[trigger] res@[i]).0@ == self.hash_order()[i]
                    &&& self@.contains_key(res@[i].0@)
                    &&& res@[i].1@ == self@[res@[i].0@].0
                },
            forall|k: Seq<char>|
                #[trigger] self@.contains_key(k) ==> exists|i: int|
                    0 <= i < res@.len() && (#[trigger] res@[i]).0@ == k,
            forall|i: int, j: int|
                0 <= i < j < res@.len() ==> (#[trigger] res@[i]).0@ != (#[trigger] res@[j]).0@,
    {
        proof {
            use_type_invariant(self);
        }
        let mut res: Vec<(String, String)> = Vec::new();
        let n = self.entries.len();
        let mut i: usize = 0;
        while i < n
            invariant
                n == self.entries@.len(),
                i <= n,
                res@.len() == i,
                forall|j: int|
                    0 <= j < i ==> (#[trigger] res@[j]).0@ == self.entries@[j].hash@
                        && res@[j].1@ == self.entries@[j].original@,
            decreases n - i,
        {
            let e = &self.entries[i];
            res.push((e.hash.clone(), e.original.clone()));
            i = i + 1;
        }
        assert forall|k: Seq<char>| #[trigger] self@.contains_key(k) implies exists|i: int|
            0 <= i < res@.len() && (#[trigger] res@[i]).0@ == k by {
            let i = self.index@[k] as int;
            assert(res@[i].0@ == k);
        }
        assert forall|i: int, j: int| 0 <= i < j < res@.len() implies (#[trigger] res@[i]).0@
            != (#[trigger] res@[j]).0@ by {
            assert(self.index@[self.entries@[i].hash@] == i);
            assert(self.index@[self.entries@[j].hash@] == j);
        }
        res
    }

    /// The path stored as a file in the archive for the given hash.
    pub fn get_originals(&self, hash: &str) -> (res: Option<&String>)
        ensures
            match res {
                Some(p) => self@.contains_key(hash@) && p@ == self@[hash@].0,
                None => !self@.contains_key(hash@),
            },
    {
        proof {
            use_type_invariant(self);
        }
        match self.index.get(hash) {
            Some(pos) => Some(&self.entries[*pos].original),
            None => None,
        }
    }

    /// The paths stored as hard links in the archive for the given hash.
    pub fn get_duplicates(&self, hash: &str) -> (res: Option<&Vec<String>>)
        ensures
            match res {
                Some(d) => self@.contains_key(hash@) && paths_view(d@) == self@[hash@].1,
                None => !self@.contains_key(hash@),
            },
    {
        proof {
            use_type_invariant(self);
        }
        match self.index.get(hash) {
            Some(pos) => Some(&self.entries[*pos].duplicates),
            None => None,
        }
    }
}

impl Default for DedupMap {
    fn default() -> (m: DedupMap)
        ensures
            m@ == Map::<Seq<char>, (Seq<char>, Seq<Seq<char>>)>::empty(),
    {
        DedupMap::new()
    }
}

/// The sizes of an archive: of all files that went into it, and of the
/// contents actually stored after deduplication.
pub struct Archive {
    pub orig_size: u64,
    pub dedup_size: u64,
}

impl Archive {
    /// An archive with nothing in it yet.
    pub fn new() -> (a: Archive)
        ensures
            a.orig_size == 0,
            a.dedup_size == 0,
    {
        Archive { orig_size: 0, dedup_size: 0 }
    }

    /// Accounts for a file whose contents are stored in the archive.
    pub fn add_file(&mut self, file: &FileInfo)
        requires
            old(self).orig_size + file.size <= u64::MAX,
            old(self).dedup_size + file.size <= u64::MAX,
        ensures
            final(self).orig_size == old(self).orig_size + file.size,
            final(self).dedup_size == old(self).dedup_size + file.size,
    {
        self.orig_size = self.orig_size + file.size;
        self.dedup_size = self.dedup_size + file.size;
    }

    /// Accounts for a file stored as a hard link to an identical one.
    pub fn add_dup(&mut self, file: &FileInfo)
        requires
            old(self).orig_size + file.size <= u64::MAX,
        ensures
            final(self).orig_size == old(self).orig_size + file.size,
            final(self).dedup_size == old(self).dedup_size,
    {
        self.orig_size = self.orig_size + file.size;
    }

    /// The total size of the files that went into the archive.
    pub fn get_orig_size(&self) -> (size: u64)
        ensures
            size == self.orig_size,
    {
        self.orig_size
    }

    /// The size of the contents stored in the archive.
    pub fn get_dedup_size(&self) -> (size: u64)
        ensures
            size == self.dedup_size,
    {
        self.dedup_size
    }
}

} // verus!
