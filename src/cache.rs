use vstd::prelude::*;
use sha2::Digest;
use vstd::multiset::Multiset;
use vstd::string::*;
use vstd::utf8::encode_utf8;

verus! {

/// Schema version of persisted caches; a cache of another version is
/// treated as empty.
pub const CACHE_VERSION: &'static str = "1.0";

/// The SHA-256 digest of a byte sequence.
pub uninterp spec fn sha256_of(data: Seq<u8>) -> Seq<u8>;

/// Relies on `sha2::Sha256::digest` (through `digest::Digest`): the 32-byte
/// SHA-256 digest of `data`, a function of the bytes alone.
#[verifier::external_body]
fn sha256_digest(data: &[u8]) -> (r: Vec<u8>)
    ensures
        r@ == sha256_of(data@),
        r@.len() == 32,
{
    sha2::Sha256::digest(data).to_vec()
}

/// What the file-level cache records for one source file.
#[derive(Debug)]
pub struct CacheEntry {
    pub source: String,
    pub hash: Vec<u8>,
    pub timestamp: u64,
    pub flat_file: String,
}

/// Position of the entry for `key`, if any.
pub open spec fn entry_index(s: Seq<CacheEntry>, key: Seq<char>) -> Option<int> {
    if exists|k: int| 0 <= k < s.len() && s[k].source@ == key {
        Some(choose|k: int| 0 <= k < s.len() && s[k].source@ == key)
    } else {
        None
    }
}

/// The entry for `key`, if any.
pub open spec fn lookup(s: Seq<CacheEntry>, key: Seq<char>) -> Option<CacheEntry> {
    match entry_index(s, key) {
        None => None,
        Some(k) => Some(s[k]),
    }
}

/// No two entries are for the same source.
pub open spec fn unique_sources(s: Seq<CacheEntry>) -> bool {
    forall|i: int, j: int| 0 <= i < j < s.len() ==> s[i].source@ != s[j].source@
}

/// Whether a file must be compiled again: it has no entry, its recorded
/// artifact is gone, or its content digest differs from the recorded one.
pub open spec fn file_needs_recompile(
    s: Seq<CacheEntry>,
    file: Seq<char>,
    artifact_exists: bool,
    content: Seq<u8>,
) -> bool {
    match entry_index(s, file) {
        None => true,
        Some(k) => !artifact_exists || sha256_of(content) != s[k].hash@,
    }
}

/// The entry for `file` records `flat_file`, the digest of `content`, and
/// `timestamp`.
pub open spec fn records(
    s: Seq<CacheEntry>,
    file: Seq<char>,
    flat_file: Seq<char>,
    content: Seq<u8>,
    timestamp: u64,
) -> bool {
    match lookup(s, file) {
        None => false,
        Some(e) => e.hash@ == sha256_of(content) && e.flat_file@ == flat_file && e.timestamp == timestamp,
    }
}

/// Lemma: in a list with unique sources, the entry at `k` is the one found
/// for its source.
proof fn lemma_entry_index_at(s: Seq<CacheEntry>, k: int)
    requires
        unique_sources(s),
        0 <= k < s.len(),
    ensures
        entry_index(s, s[k].source@) == Some(k),
{
    let c = choose|c: int| 0 <= c < s.len() && s[c].source@ == s[k].source@;
    if c < k {
        assert(s[c].source@ != s[k].source@);
    } else if c > k {
        assert(s[k].source@ != s[c].source@);
    }
}

/// Per-file content cache for incremental builds.
pub struct BuildCache {
    cache_dir: String,
    entries: Vec<CacheEntry>,
}

impl BuildCache {
    pub closed spec fn entries(&self) -> Seq<CacheEntry> {
        self.entries@
    }

    pub closed spec fn dir(&self) -> Seq<char> {
        self.cache_dir@
    }

    pub open spec fn wf(&self) -> bool {
        unique_sources(self.entries())
    }

    /// An empty cache kept in `cache_dir`.
    pub fn new(cache_dir: String) -> (r: Self)
        ensures
            r.wf(),
            r.entries().len() == 0,
            r.dir() == cache_dir@,
    {
        BuildCache { cache_dir, entries: Vec::new() }
    }

    /// A cache from persisted entries: kept when the schema version matches
    /// and no source appears twice, else empty.
    pub fn restore(cache_dir: String, version: &String, entries: Vec<CacheEntry>) -> (r: Self)
        ensures
            r.wf(),
            r.dir() == cache_dir@,
            r.entries() == (if version@ == CACHE_VERSION@ && unique_sources(entries@) {
                entries@
            } else {
                Seq::<CacheEntry>::empty()
            }),
    {
        let expected = String::from_str(CACHE_VERSION);
        let unique = sources_unique(&entries);
        if *version == expected && unique {
            BuildCache { cache_dir, entries }
        } else {
            BuildCache { cache_dir, entries: Vec::new() }
        }
    }

    /// The directory the cache is kept in.
    pub fn cache_dir(&self) -> (r: &String)
        ensures
            r@ == self.dir(),
    {
        &self.cache_dir
    }

    /// The entries, for persisting.
    pub fn cached_entries(&self) -> (r: &Vec<CacheEntry>)
        ensures
            r@ == self.entries(),
    {
        &self.entries
    }

    fn find(&self, resource_file: &String) -> (r: Option<usize>)
        requires
            self.wf(),
        ensures
            match r {
                None => entry_index(self.entries(), resource_file@) is None,
                Some(k) => entry_index(self.entries(), resource_file@) == Some(k as int),
            },
    {
        let mut k: usize = 0;
        while k < self.entries.len()
            invariant
                unique_sources(self.entries@),
                k <= self.entries@.len(),
                forall|j: int| 0 <= j < k ==> self.entries@[j].source@ != resource_file@,
            decreases self.entries@.len() - k,
        {
            if self.entries[k].source == *resource_file {
                proof {
                    lemma_entry_index_at(self.entries@, k as int);
                }
                return Some(k);
            }
            k = k + 1;
        }
        None
    }

    /// Whether `resource_file` must be compiled again, given whether its
    /// recorded artifact still exists and the file's current content.
    pub fn needs_recompile(&self, resource_file: &String, artifact_exists: bool, content: &Vec<u8>) -> (r: bool)
        requires
            self.wf(),
        ensures
            r == file_needs_recompile(self.entries(), resource_file@, artifact_exists, content@),
    {
        match self.find(resource_file) {
            None => true,
            Some(k) => {
                if !artifact_exists {
                    return true;
                }
                let current = sha256_digest(content.as_slice());
                !bytes_equal(&current, &self.entries[k].hash)
            },
        }
    }

    /// The artifact recorded for `resource_file`, if any.
    pub fn get_cached_flat_file(&self, resource_file: &String) -> (r: Option<String>)
        requires
            self.wf(),
        ensures
            match entry_index(self.entries(), resource_file@) {
                None => r is None,
                Some(k) => r is Some && r->Some_0@ == self.entries()[k].flat_file@,
            },
    {
        match self.find(resource_file) {
            None => None,
            Some(k) => Some(self.entries[k].flat_file.clone()),
        }
    }

    /// Records that `resource_file`, with content `content`, was compiled to
    /// `flat_file` at `timestamp`, replacing any earlier entry for it.
    pub fn update_entry(&mut self, resource_file: &String, flat_file: &String, content: &Vec<u8>, timestamp: u64)
        requires
            old(self).wf(),
        ensures
            final(self).wf(),
            final(self).dir() == old(self).dir(),
            records(final(self).entries(), resource_file@, flat_file@, content@, timestamp),
            forall|key: Seq<char>| key != resource_file@ ==> #[trigger] lookup(final(self).entries(), key)
                == lookup(old(self).entries(), key),
    {
        let hash = sha256_digest(content.as_slice());
        let entry = CacheEntry {
            source: resource_file.clone(),
            hash,
            timestamp,
            flat_file: flat_file.clone(),
        };
        let ghost old_entries = self.entries@;
        match self.find(resource_file) {
            None => {
                self.entries.push(entry);
                proof {
                    let s = self.entries@;
                    assert(unique_sources(s)) by {
                        assert forall|i: int, j: int| 0 <= i < j < s.len() implies s[i].source@ != s[j].source@ by {
                            if j == s.len() - 1 {
                                if s[i].source@ == resource_file@ {
                                    assert(old_entries[i].source@ == resource_file@);
                                }
                            } else {
                                assert(s[i] == old_entries[i] && s[j] == old_entries[j]);
                            }
                        }
                    }
                    lemma_entry_index_at(s, s.len() - 1);
                    assert forall|key: Seq<char>| key != resource_file@ implies #[trigger] lookup(s, key) == lookup(old_entries, key) by {
                        match entry_index(old_entries, key) {
                            None => {
                                if exists|k: int| 0 <= k < s.len() && s[k].source@ == key {
                                    let k = choose|k: int| 0 <= k < s.len() && s[k].source@ == key;
                                    assert(old_entries[k].source@ == key);
                                }
                            },
                            Some(k) => {
                                assert(s[k] == old_entries[k]);
                                lemma_entry_index_at(s, k);
                            },
                        }
                    }
                }
            },
            Some(k) => {
                self.entries.set(k, entry);
                proof {
                    let s = self.entries@;
                    assert(unique_sources(s)) by {
                        assert forall|i: int, j: int| 0 <= i < j < s.len() implies s[i].source@ != s[j].source@ by {
                            assert(old_entries[i].source@ != old_entries[j].source@);
                            assert(old_entries[k as int].source@ == resource_file@);
                        }
                    }
                    lemma_entry_index_at(s, k as int);
                    assert forall|key: Seq<char>| key != resource_file@ implies #[trigger] lookup(s, key) == lookup(old_entries, key) by {
                        match entry_index(old_entries, key) {
                            None => {
                                if exists|q: int| 0 <= q < s.len() && s[q].source@ == key {
                                    let q = choose|q: int| 0 <= q < s.len() && s[q].source@ == key;
                                    assert(q != k);
                                    assert(old_entries[q].source@ == key);
                                }
                            },
                            Some(k1) => {
                                assert(k1 != k);
                                assert(s[k1] == old_entries[k1]);
                                lemma_entry_index_at(s, k1);
                            },
                        }
                    }
                }
            },
        }
    }

    /// Drops every entry.
    pub fn clear(&mut self)
        ensures
            final(self).wf(),
            final(self).entries().len() == 0,
            final(self).dir() == old(self).dir(),
    {
        self.entries = Vec::new();
    }

    /// The artifacts of all entries, in entry order.
    pub fn get_all_cached_flat_files(&self) -> (r: Vec<String>)
        ensures
            r@ == self.entries().map_values(|e: CacheEntry| e.flat_file),
    {
        let mut out: Vec<String> = Vec::new();
        let mut i: usize = 0;
        while i < self.entries.len()
            invariant
                i <= self.entries@.len(),
                out@ == self.entries@.take(i as int).map_values(|e: CacheEntry| e.flat_file),
            decreases self.entries@.len() - i,
        {
            out.push(self.entries[i].flat_file.clone());
            i = i + 1;
            proof {
                assert(out@ =~= self.entries@.take(i as int).map_values(|e: CacheEntry| e.flat_file));
            }
        }
        proof {
            assert(self.entries@.take(self.entries@.len() as int) =~= self.entries@);
        }
        out
    }
}

/// Whether two byte sequences are equal.
pub fn bytes_equal(a: &Vec<u8>, b: &Vec<u8>) -> (r: bool)
    ensures
        r == (a@ == b@),
{
    if a.len() != b.len() {
        return false;
    }
    let mut i: usize = 0;
    while i < a.len()
        invariant
            a@.len() == b@.len(),
            i <= a@.len(),
            forall|k: int| 0 <= k < i ==> a@[k] == b@[k],
        decreases a@.len() - i,
    {
        if a[i] != b[i] {
            return false;
        }
        i = i + 1;
    }
    proof {
        assert(a@ =~= b@);
    }
    true
}

/// Whether no source appears twice.
fn sources_unique(entries: &Vec<CacheEntry>) -> (r: bool)
    ensures
        r == unique_sources(entries@),
{
    let n = entries.len();
    let mut i: usize = 0;
    while i < n
        invariant
            n == entries@.len(),
            i <= n,
            forall|a: int, b: int| 0 <= a < b < n && a < i ==> entries@[a].source@ != entries@[b].source@,
        decreases n - i,
    {
        let mut j: usize = i + 1;
        while j < n
            invariant
                n == entries@.len(),
                i < n,
                i + 1 <= j <= n,
                forall|a: int, b: int| 0 <= a < b < n && a < i ==> entries@[a].source@ != entries@[b].source@,
                forall|b: int| i < b < j ==> entries@[i as int].source@ != entries@[b].source@,
            decreases n - j,
        {
            if entries[i].source == entries[j].source {
                return false;
            }
            j = j + 1;
        }
        i = i + 1;
    }
    true
}

/// After a file is recorded, it needs no recompilation while its artifact
/// exists and its content digest is unchanged, and needs it once the
/// artifact is gone or the digest differs.
pub proof fn lemma_record_round_trip(
    s: Seq<CacheEntry>,
    file: Seq<char>,
    flat_file: Seq<char>,
    content: Seq<u8>,
    timestamp: u64,
    later: Seq<u8>,
)
    requires
        records(s, file, flat_file, content, timestamp),
    ensures
        !file_needs_recompile(s, file, true, content),
        file_needs_recompile(s, file, false, later),
        sha256_of(later) != sha256_of(content) ==> file_needs_recompile(s, file, true, later),
        sha256_of(later) == sha256_of(content) ==> !file_needs_recompile(s, file, true, later),
{
}


/// A file beneath a directory, as the directory digest sees it: its
/// relative path in UTF-8 and its content.
pub type FileRecord = (Seq<u8>, Seq<u8>);

/// Lexicographic order on byte strings; a proper prefix comes first.
pub open spec fn bytes_lt(a: Seq<u8>, b: Seq<u8>) -> bool
    decreases a.len(),
{
    if a.len() == 0 {
        b.len() > 0
    } else if b.len() == 0 {
        false
    } else if a[0] != b[0] {
        a[0] < b[0]
    } else {
        bytes_lt(a.drop_first(), b.drop_first())
    }
}

pub proof fn lemma_bytes_lt_irreflexive(a: Seq<u8>)
    ensures
        !bytes_lt(a, a),
    decreases a.len(),
{
    if a.len() > 0 {
        lemma_bytes_lt_irreflexive(a.drop_first());
    }
}

pub proof fn lemma_bytes_lt_total(a: Seq<u8>, b: Seq<u8>)
    ensures
        a != b ==> (bytes_lt(a, b) || bytes_lt(b, a)),
        !(bytes_lt(a, b) && bytes_lt(b, a)),
    decreases a.len(),
{
    if a.len() > 0 && b.len() > 0 && a[0] == b[0] {
        lemma_bytes_lt_total(a.drop_first(), b.drop_first());
        if a.drop_first() == b.drop_first() {
            assert(a =~= seq![a[0]] + a.drop_first());
            assert(b =~= seq![b[0]] + b.drop_first());
        }
    }
    if a.len() == 0 && b.len() == 0 {
        assert(a =~= b);
    }
}

pub proof fn lemma_bytes_lt_transitive(a: Seq<u8>, b: Seq<u8>, c: Seq<u8>)
    requires
        bytes_lt(a, b),
        bytes_lt(b, c),
    ensures
        bytes_lt(a, c),
    decreases a.len(),
{
    if a.len() > 0 && b.len() > 0 && c.len() > 0 && a[0] == b[0] && b[0] == c[0] {
        lemma_bytes_lt_transitive(a.drop_first(), b.drop_first(), c.drop_first());
    }
}

/// `x` may stand before `y`: its path is not greater.
pub open spec fn path_le(x: FileRecord, y: FileRecord) -> bool {
    !bytes_lt(y.0, x.0)
}

/// One step of a stable insertion sort by path.
pub open spec fn insert_by_path(e: FileRecord, s: Seq<FileRecord>) -> Seq<FileRecord>
    decreases s.len(),
{
    if s.len() == 0 {
        seq![e]
    } else if path_le(s.last(), e) {
        s.push(e)
    } else {
        insert_by_path(e, s.drop_last()).push(s.last())
    }
}

/// The records ordered by relative path.
pub open spec fn sort_by_path(s: Seq<FileRecord>) -> Seq<FileRecord>
    decreases s.len(),
{
    if s.len() == 0 {
        s
    } else {
        insert_by_path(s.last(), sort_by_path(s.drop_last()))
    }
}

pub open spec fn sorted_by_path(s: Seq<FileRecord>) -> bool {
    forall|i: int, j: int| 0 <= i < j < s.len() ==> path_le(s[i], s[j])
}

/// `n` as `k` bytes, least significant first.
pub open spec fn le_bytes(n: nat, k: nat) -> Seq<u8>
    decreases k,
{
    if k == 0 {
        seq![]
    } else {
        seq![(n % 256) as u8] + le_bytes(n / 256, (k - 1) as nat)
    }
}

/// `256` to the power `k`.
pub open spec fn pow256(k: nat) -> nat
    decreases k,
{
    if k == 0 {
        1
    } else {
        256 * pow256((k - 1) as nat)
    }
}

/// One record as the digest sees it: the path's length in eight bytes, the
/// path, the content's length in eight bytes, the content. The lengths make
/// the encoding of a list of records unambiguous.
pub open spec fn encode_record(r: FileRecord) -> Seq<u8> {
    le_bytes(r.0.len(), 8) + r.0 + le_bytes(r.1.len(), 8) + r.1
}

/// The bytes fed to the digest: the encoded records, in order.
pub open spec fn digest_input(s: Seq<FileRecord>) -> Seq<u8>
    decreases s.len(),
{
    if s.len() == 0 {
        seq![]
    } else {
        digest_input(s.drop_last()) + encode_record(s.last())
    }
}

proof fn lemma_le_bytes_len(n: nat, k: nat)
    ensures
        le_bytes(n, k).len() == k,
    decreases k,
{
    if k > 0 {
        lemma_le_bytes_len(n / 256, (k - 1) as nat);
    }
}

proof fn lemma_le_bytes_injective(a: nat, b: nat, k: nat)
    requires
        a < pow256(k),
        b < pow256(k),
        le_bytes(a, k) == le_bytes(b, k),
    ensures
        a == b,
    decreases k,
{
    if k > 0 {
        let p = pow256((k - 1) as nat);
        assert(le_bytes(a, k) == seq![(a % 256) as u8] + le_bytes(a / 256, (k - 1) as nat));
        assert(le_bytes(b, k) == seq![(b % 256) as u8] + le_bytes(b / 256, (k - 1) as nat));
        assert(le_bytes(a, k)[0] == (a % 256) as u8);
        assert(le_bytes(b, k)[0] == (b % 256) as u8);
        assert((a % 256) as u8 == (b % 256) as u8);
        assert(a % 256 == b % 256);
        assert(le_bytes(a, k).drop_first() =~= le_bytes(a / 256, (k - 1) as nat));
        assert(le_bytes(b, k).drop_first() =~= le_bytes(b / 256, (k - 1) as nat));
        assert(a / 256 < p) by (nonlinear_arith)
            requires
                a < 256 * p,
        ;
        assert(b / 256 < p) by (nonlinear_arith)
            requires
                b < 256 * p,
        ;
        lemma_le_bytes_injective(a / 256, b / 256, (k - 1) as nat);
        assert(a == 256 * (a / 256) + a % 256) by (nonlinear_arith);
        assert(b == 256 * (b / 256) + b % 256) by (nonlinear_arith);
    }
}

/// Lengths of path and content fit the eight-byte prefixes.
pub open spec fn record_fits(r: FileRecord) -> bool {
    r.0.len() < pow256(8) && r.1.len() < pow256(8)
}

proof fn lemma_digest_input_front(s: Seq<FileRecord>)
    requires
        s.len() > 0,
    ensures
        digest_input(s) == encode_record(s[0]) + digest_input(s.drop_first()),
    decreases s.len(),
{
    if s.len() == 1 {
        assert(s.drop_last() =~= seq![]);
        assert(s.drop_first() =~= seq![]);
        assert(digest_input(s.drop_first()) =~= seq![]);
        assert(digest_input(s) =~= encode_record(s[0]));
    } else {
        lemma_digest_input_front(s.drop_last());
        assert(s.drop_last().drop_first() =~= s.drop_first().drop_last());
        assert(s.drop_first().last() == s.last());
        assert(digest_input(s) =~= encode_record(s[0]) + digest_input(s.drop_first()));
    }
}

proof fn lemma_encode_parts(x: FileRecord, rest: Seq<u8>)
    ensures
        ({
            let w = encode_record(x) + rest;
            let p = x.0.len() as int;
            let c = x.1.len() as int;
            &&& w.len() == 16 + p + c + rest.len()
            &&& w.subrange(0, 8) == le_bytes(x.0.len(), 8)
            &&& w.subrange(8, 8 + p) == x.0
            &&& w.subrange(8 + p, 16 + p) == le_bytes(x.1.len(), 8)
            &&& w.subrange(16 + p, 16 + p + c) == x.1
            &&& w.skip(16 + p + c) == rest
        }),
{
    lemma_le_bytes_len(x.0.len(), 8);
    lemma_le_bytes_len(x.1.len(), 8);
    let w = encode_record(x) + rest;
    let p = x.0.len() as int;
    let c = x.1.len() as int;
    assert(w.subrange(0, 8) =~= le_bytes(x.0.len(), 8));
    assert(w.subrange(8, 8 + p) =~= x.0);
    assert(w.subrange(8 + p, 16 + p) =~= le_bytes(x.1.len(), 8));
    assert(w.subrange(16 + p, 16 + p + c) =~= x.1);
    assert(w.skip(16 + p + c) =~= rest);
}

/// Different lists of records give different digest inputs.
proof fn lemma_digest_input_injective(s1: Seq<FileRecord>, s2: Seq<FileRecord>)
    requires
        forall|i: int| 0 <= i < s1.len() ==> record_fits(#[trigger] s1[i]),
        forall|i: int| 0 <= i < s2.len() ==> record_fits(#[trigger] s2[i]),
        digest_input(s1) == digest_input(s2),
    ensures
        s1 == s2,
    decreases s1.len(),
{
    if s1.len() == 0 || s2.len() == 0 {
        if s1.len() > 0 {
            lemma_digest_input_front(s1);
            lemma_encode_parts(s1[0], digest_input(s1.drop_first()));
        }
        if s2.len() > 0 {
            lemma_digest_input_front(s2);
            lemma_encode_parts(s2[0], digest_input(s2.drop_first()));
        }
        assert(s1 =~= s2);
    } else {
        let x = s1[0];
        let y = s2[0];
        let d1 = digest_input(s1.drop_first());
        let d2 = digest_input(s2.drop_first());
        lemma_digest_input_front(s1);
        lemma_digest_input_front(s2);
        lemma_encode_parts(x, d1);
        lemma_encode_parts(y, d2);
        let w = digest_input(s1);
        assert(record_fits(x) && record_fits(y));
        lemma_le_bytes_injective(x.0.len(), y.0.len(), 8);
        let p = x.0.len() as int;
        assert(x.0 == y.0);
        lemma_le_bytes_injective(x.1.len(), y.1.len(), 8);
        let c = x.1.len() as int;
        assert(x.1 == y.1);
        assert(d1 == d2);
        assert forall|i: int| 0 <= i < s1.drop_first().len() implies record_fits(#[trigger] s1.drop_first()[i]) by {
            assert(s1.drop_first()[i] == s1[i + 1]);
        }
        assert forall|i: int| 0 <= i < s2.drop_first().len() implies record_fits(#[trigger] s2.drop_first()[i]) by {
            assert(s2.drop_first()[i] == s2[i + 1]);
        }
        lemma_digest_input_injective(s1.drop_first(), s2.drop_first());
        assert(s1 =~= seq![x] + s1.drop_first());
        assert(s2 =~= seq![y] + s2.drop_first());
    }
}

/// The combined digest of a directory's files, taken in path order.
pub open spec fn directory_digest(files: Seq<FileRecord>) -> Seq<u8> {
    sha256_of(digest_input(sort_by_path(files)))
}

/// No two records share a path.
pub open spec fn unique_paths(s: Seq<FileRecord>) -> bool {
    forall|i: int, j: int| 0 <= i < j < s.len() ==> s[i].0 != s[j].0
}

proof fn lemma_insert_path_position(e: FileRecord, s: Seq<FileRecord>, p: int)
    requires
        0 <= p <= s.len(),
        p == 0 || path_le(s[p - 1], e),
        forall|k: int| p <= k < s.len() ==> !path_le(s[k], e),
    ensures
        insert_by_path(e, s) == s.insert(p, e),
    decreases s.len(),
{
    if s.len() == 0 {
        assert(s.insert(p, e) =~= seq![e]);
    } else if path_le(s.last(), e) {
        assert(p == s.len());
        assert(s.insert(p, e) =~= s.push(e));
    } else {
        lemma_insert_path_position(e, s.drop_last(), p);
        assert(s.drop_last().insert(p, e).push(s.last()) =~= s.insert(p, e));
    }
}

proof fn lemma_path_le_transitive(x: FileRecord, y: FileRecord, z: FileRecord)
    requires
        path_le(x, y),
        path_le(y, z),
    ensures
        path_le(x, z),
{
    lemma_bytes_lt_total(x.0, y.0);
    lemma_bytes_lt_total(y.0, z.0);
    lemma_bytes_lt_total(x.0, z.0);
    if bytes_lt(z.0, x.0) {
        if x.0 == y.0 {
        } else if y.0 == z.0 {
        } else {
            lemma_bytes_lt_transitive(x.0, y.0, z.0);
        }
    }
}

proof fn lemma_insert_path_sorted(e: FileRecord, s: Seq<FileRecord>)
    requires
        sorted_by_path(s),
    ensures
        sorted_by_path(insert_by_path(e, s)),
        insert_by_path(e, s).to_multiset() =~= s.to_multiset().insert(e),
    decreases s.len(),
{
    s.to_multiset_ensures();
    if s.len() == 0 {
        assert(s.push(e) =~= seq![e]);
    } else if path_le(s.last(), e) {
        let q = s.push(e);
        assert forall|i: int, j: int| 0 <= i < j < q.len() implies path_le(q[i], q[j]) by {
            if j == s.len() {
                if i < s.len() - 1 {
                    lemma_path_le_transitive(s[i], s[s.len() - 1], e);
                }
            } else {
                assert(q[i] == s[i] && q[j] == s[j]);
            }
        }
    } else {
        let t = s.drop_last();
        lemma_insert_path_sorted(e, t);
        let r = insert_by_path(e, t);
        r.to_multiset_ensures();
        t.to_multiset_ensures();
        assert(s =~= t.push(s.last()));
        lemma_bytes_lt_total(e.0, s.last().0);
        assert forall|i: int| 0 <= i < r.len() implies path_le(r[i], s.last()) by {
            assert(r.contains(r[i]));
            assert(r.to_multiset().count(r[i]) > 0);
            if r[i] != e {
                assert(t.to_multiset().count(r[i]) > 0);
                assert(t.contains(r[i]));
                let k = choose|k: int| 0 <= k < t.len() && t[k] == r[i];
                assert(t[k] == s[k]);
            }
        }
        let q = r.push(s.last());
        assert forall|i: int, j: int| 0 <= i < j < q.len() implies path_le(q[i], q[j]) by {
            if j == r.len() {
                assert(q[i] == r[i]);
            } else {
                assert(q[i] == r[i] && q[j] == r[j]);
            }
        }
    }
}

proof fn lemma_sort_path_sorted(s: Seq<FileRecord>)
    ensures
        sorted_by_path(sort_by_path(s)),
        sort_by_path(s).to_multiset() =~= s.to_multiset(),
    decreases s.len(),
{
    if s.len() > 0 {
        lemma_sort_path_sorted(s.drop_last());
        lemma_insert_path_sorted(s.last(), sort_by_path(s.drop_last()));
        s.drop_last().to_multiset_ensures();
        assert(s =~= s.drop_last().push(s.last()));
    }
}

/// Records of the multiset that share a path are the same record.
pub open spec fn paths_identify(m: Multiset<FileRecord>) -> bool {
    forall|x: FileRecord, y: FileRecord| m.count(x) > 0 && m.count(y) > 0 && x.0 == y.0 ==> x == y
}

/// Two path-sorted sequences holding the same records, in which a path
/// identifies its record, are equal.
proof fn lemma_sorted_unique(s1: Seq<FileRecord>, s2: Seq<FileRecord>)
    requires
        sorted_by_path(s1),
        sorted_by_path(s2),
        s1.to_multiset() == s2.to_multiset(),
        paths_identify(s1.to_multiset()),
    ensures
        s1 == s2,
    decreases s1.len(),
{
    s1.to_multiset_ensures();
    s2.to_multiset_ensures();
    if s1.len() == 0 || s2.len() == 0 {
        assert(s1 =~= s2);
    } else {
        let x = s1[0];
        let y = s2[0];
        assert(s1.contains(x));
        assert(s1.to_multiset().count(x) > 0);
        assert(s2.to_multiset().count(x) > 0);
        assert(s2.contains(x));
        let p = choose|p: int| 0 <= p < s2.len() && s2[p] == x;
        assert(s2.contains(y));
        assert(s2.to_multiset().count(y) > 0);
        assert(s1.to_multiset().count(y) > 0);
        assert(s1.contains(y));
        let q = choose|q: int| 0 <= q < s1.len() && s1[q] == y;
        if p > 0 {
            assert(path_le(y, x));
        }
        if q > 0 {
            assert(path_le(x, y));
        }
        lemma_bytes_lt_total(x.0, y.0);
        lemma_bytes_lt_irreflexive(x.0);
        assert(x.0 == y.0);
        assert(x == y);
        let t1 = s1.remove(0);
        let t2 = s2.remove(0);
        assert(t1.to_multiset() == t2.to_multiset());
        t1.to_multiset_ensures();
        assert forall|a: FileRecord, b: FileRecord| t1.to_multiset().count(a) > 0 && t1.to_multiset().count(b) > 0 && a.0 == b.0 implies a == b by {
            assert(s1.to_multiset().count(a) > 0);
            assert(s1.to_multiset().count(b) > 0);
        }
        assert(sorted_by_path(t1)) by {
            assert forall|i: int, j: int| 0 <= i < j < t1.len() implies path_le(t1[i], t1[j]) by {
                assert(t1[i] == s1[i + 1] && t1[j] == s1[j + 1]);
            }
        }
        assert(sorted_by_path(t2)) by {
            assert forall|i: int, j: int| 0 <= i < j < t2.len() implies path_le(t2[i], t2[j]) by {
                assert(t2[i] == s2[i + 1] && t2[j] == s2[j + 1]);
            }
        }
        lemma_sorted_unique(t1, t2);
        assert(s1 =~= seq![x] + t1);
        assert(s2 =~= seq![y] + t2);
    }
}

/// The digest input determines the files: two listings, each without
/// repeated paths, whose sorted records give the same digest input hold the
/// same files with the same contents. So the directory digest changes
/// whenever the file set or a file's content changes, unless SHA-256 itself
/// collides.
pub proof fn lemma_directory_digest_input_determines_files(a: Seq<FileRecord>, b: Seq<FileRecord>)
    requires
        forall|i: int| 0 <= i < a.len() ==> record_fits(#[trigger] a[i]),
        forall|i: int| 0 <= i < b.len() ==> record_fits(#[trigger] b[i]),
        digest_input(sort_by_path(a)) == digest_input(sort_by_path(b)),
    ensures
        a.to_multiset() == b.to_multiset(),
{
    lemma_sort_path_sorted(a);
    lemma_sort_path_sorted(b);
    let sa = sort_by_path(a);
    let sb = sort_by_path(b);
    a.to_multiset_ensures();
    b.to_multiset_ensures();
    sa.to_multiset_ensures();
    sb.to_multiset_ensures();
    assert forall|i: int| 0 <= i < sa.len() implies record_fits(#[trigger] sa[i]) by {
        assert(sa.contains(sa[i]));
        assert(a.to_multiset().count(sa[i]) > 0);
        assert(a.contains(sa[i]));
    }
    assert forall|i: int| 0 <= i < sb.len() implies record_fits(#[trigger] sb[i]) by {
        assert(sb.contains(sb[i]));
        assert(b.to_multiset().count(sb[i]) > 0);
        assert(b.contains(sb[i]));
    }
    lemma_digest_input_injective(sa, sb);
}

/// The directory digest does not depend on the order in which the files
/// were listed: any two listings of the same files, without repeated paths,
/// give the same digest input and so the same digest.
pub proof fn lemma_directory_digest_order_independent(a: Seq<FileRecord>, b: Seq<FileRecord>)
    requires
        unique_paths(a),
        a.to_multiset() == b.to_multiset(),
    ensures
        sort_by_path(a) == sort_by_path(b),
        digest_input(sort_by_path(a)) == digest_input(sort_by_path(b)),
        directory_digest(a) == directory_digest(b),
{
    lemma_sort_path_sorted(a);
    lemma_sort_path_sorted(b);
    a.to_multiset_ensures();
    assert(paths_identify(a.to_multiset())) by {
        assert forall|x: FileRecord, y: FileRecord| a.to_multiset().count(x) > 0 && a.to_multiset().count(y) > 0
            && x.0 == y.0 implies x == y by {
            assert(a.contains(x));
            assert(a.contains(y));
            let i = choose|i: int| 0 <= i < a.len() && a[i] == x;
            let j = choose|j: int| 0 <= j < a.len() && a[j] == y;
            if i < j {
                assert(a[i].0 != a[j].0);
            } else if j < i {
                assert(a[j].0 != a[i].0);
            }
        }
    }
    lemma_sorted_unique(sort_by_path(a), sort_by_path(b));
}


/// What the digest sees of a listed file: its relative path in UTF-8 and
/// its content.
pub open spec fn record_of(f: (String, Vec<u8>)) -> FileRecord {
    (encode_utf8(f.0@), f.1@)
}

pub open spec fn records_of(files: Seq<(String, Vec<u8>)>) -> Seq<FileRecord> {
    files.map_values(|f: (String, Vec<u8>)| record_of(f))
}

pub open spec fn pair_view(r: (Vec<u8>, Vec<u8>)) -> FileRecord {
    (r.0@, r.1@)
}

pub open spec fn pairs_view(s: Seq<(Vec<u8>, Vec<u8>)>) -> Seq<FileRecord> {
    s.map_values(|r: (Vec<u8>, Vec<u8>)| pair_view(r))
}

/// Whether `a` comes before `b` in lexicographic byte order.
pub fn bytes_less(a: &Vec<u8>, b: &Vec<u8>) -> (r: bool)
    ensures
        r == bytes_lt(a@, b@),
{
    let mut i: usize = 0;
    proof {
        assert(a@.subrange(0, a@.len() as int) =~= a@);
        assert(b@.subrange(0, b@.len() as int) =~= b@);
    }
    while i < a.len() && i < b.len() && a[i] == b[i]
        invariant
            i <= a@.len(),
            i <= b@.len(),
            bytes_lt(a@, b@) == bytes_lt(a@.subrange(i as int, a@.len() as int), b@.subrange(i as int, b@.len() as int)),
        decreases a@.len() - i,
    {
        proof {
            let sa = a@.subrange(i as int, a@.len() as int);
            let sb = b@.subrange(i as int, b@.len() as int);
            assert(sa.drop_first() =~= a@.subrange(i as int + 1, a@.len() as int));
            assert(sb.drop_first() =~= b@.subrange(i as int + 1, b@.len() as int));
        }
        i = i + 1;
    }
    proof {
        let sa = a@.subrange(i as int, a@.len() as int);
        let sb = b@.subrange(i as int, b@.len() as int);
        if i < a@.len() && i < b@.len() {
            assert(sa[0] == a@[i as int] && sb[0] == b@[i as int]);
        }
    }
    if i == a.len() {
        i < b.len()
    } else if i == b.len() {
        false
    } else {
        a[i] < b[i]
    }
}

/// Appends `n` as eight bytes, least significant first.
fn push_length(input: &mut Vec<u8>, n: usize)
    ensures
        final(input)@ == old(input)@ + le_bytes(n as nat, 8),
{
    let ghost base = input@;
    let mut x: u64 = n as u64;
    let mut i: usize = 0;
    proof {
        assert(base =~= base + le_bytes(n as nat, 0));
    }
    while i < 8
        invariant
            i <= 8,
            input@ + le_bytes(x as nat, (8 - i) as nat) == base + le_bytes(n as nat, 8),
        decreases 8 - i,
    {
        let ghost before = input@;
        proof {
            assert(le_bytes(x as nat, (8 - i) as nat) == seq![(x % 256) as u8] + le_bytes(
                (x / 256) as nat,
                (8 - i - 1) as nat,
            ));
        }
        input.push((x % 256) as u8);
        x = x / 256;
        i = i + 1;
        proof {
            assert(input@ + le_bytes(x as nat, (8 - i) as nat) =~= before + (seq![
                (input@[before.len() as int])
            ] + le_bytes(x as nat, (8 - i) as nat)));
        }
    }
    proof {
        assert(le_bytes(x as nat, 0) =~= seq![]);
        assert(input@ =~= input@ + le_bytes(x as nat, 0));
    }
}

/// Combined digest of a directory from its files, listed in any order:
/// the files are ordered by relative path, and each one's path and content
/// are hashed in turn, each preceded by its length.
pub fn directory_hash(files: Vec<(String, Vec<u8>)>) -> (r: Vec<u8>)
    ensures
        r@ == directory_digest(records_of(files@)),
        r@.len() == 32,
{
    let ghost recs = records_of(files@);
    let n = files.len();
    let mut rest = files;
    let ghost orig = rest@;
    let mut sorted: Vec<(Vec<u8>, Vec<u8>)> = Vec::new();
    let mut i: usize = 0;
    while i < n
        invariant
            n == orig.len(),
            recs == records_of(orig),
            i <= n,
            rest@ == orig.subrange(i as int, n as int),
            pairs_view(sorted@) == sort_by_path(recs.take(i as int)),
        decreases n - i,
    {
        let (path, content) = rest.remove(0);
        let e = (path.as_str().as_bytes_vec(), content);
        proof {
            assert(recs.take(i as int + 1).drop_last() =~= recs.take(i as int));
            assert(recs.take(i as int + 1).last() == pair_view(e));
        }
        let mut p = sorted.len();
        while p > 0 && bytes_less(&e.0, &sorted[p - 1].0)
            invariant
                p <= sorted@.len(),
                forall|k: int| p <= k < sorted@.len() ==> !path_le(pair_view(sorted@[k]), pair_view(e)),
            decreases p,
        {
            p = p - 1;
        }
        proof {
            let sv = pairs_view(sorted@);
            assert forall|k: int| p <= k < sv.len() implies !path_le(sv[k], pair_view(e)) by {
                assert(sv[k] == pair_view(sorted@[k]));
            }
            if p > 0 {
                assert(sv[p - 1] == pair_view(sorted@[p - 1]));
            }
            lemma_insert_path_position(pair_view(e), sv, p as int);
        }
        let ghost before = sorted@;
        sorted.insert(p, e);
        proof {
            assert(pairs_view(sorted@) =~= pairs_view(before).insert(p as int, pair_view(e)));
        }
        i = i + 1;
        proof {
            assert(rest@ =~= orig.subrange(i as int, n as int));
        }
    }
    proof {
        assert(recs.take(n as int) =~= recs);
    }
    let ghost sv = pairs_view(sorted@);
    let mut input: Vec<u8> = Vec::new();
    let mut j: usize = 0;
    while j < sorted.len()
        invariant
            sv == pairs_view(sorted@),
            j <= sorted@.len(),
            input@ == digest_input(sv.take(j as int)),
        decreases sorted@.len() - j,
    {
        let path = &sorted[j].0;
        let content = &sorted[j].1;
        let ghost start = input@;
        push_length(&mut input, path.len());
        let ghost base = input@;
        let mut k: usize = 0;
        while k < path.len()
            invariant
                k <= path@.len(),
                input@ == base + path@.take(k as int),
            decreases path@.len() - k,
        {
            input.push(path[k]);
            k = k + 1;
            proof {
                assert(input@ =~= base + path@.take(k as int));
            }
        }
        push_length(&mut input, content.len());
        let ghost mid = input@;
        let mut c: usize = 0;
        while c < content.len()
            invariant
                c <= content@.len(),
                input@ == mid + content@.take(c as int),
            decreases content@.len() - c,
        {
            input.push(content[c]);
            c = c + 1;
            proof {
                assert(input@ =~= mid + content@.take(c as int));
            }
        }
        proof {
            assert(path@.take(path@.len() as int) =~= path@);
            assert(content@.take(content@.len() as int) =~= content@);
            assert(sv.take(j as int + 1).drop_last() =~= sv.take(j as int));
            assert(sv.take(j as int + 1).last() == sv[j as int]);
            assert(sv[j as int] == pair_view(sorted@[j as int]));
            assert(input@ =~= start + encode_record(sv[j as int]));
        }
        j = j + 1;
    }
    proof {
        assert(sv.take(sv.len() as int) =~= sv);
    }
    sha256_digest(input.as_slice())
}


/// What the common-dependency cache records for one shared directory.
#[derive(Debug)]
pub struct DirCacheEntry {
    pub resource_dir: String,
    pub directory_hash: Vec<u8>,
    pub timestamp: u64,
    pub flat_files: Vec<String>,
}

pub open spec fn dir_entry_index(s: Seq<DirCacheEntry>, key: Seq<char>) -> Option<int> {
    if exists|k: int| 0 <= k < s.len() && s[k].resource_dir@ == key {
        Some(choose|k: int| 0 <= k < s.len() && s[k].resource_dir@ == key)
    } else {
        None
    }
}

pub open spec fn dir_lookup(s: Seq<DirCacheEntry>, key: Seq<char>) -> Option<DirCacheEntry> {
    match dir_entry_index(s, key) {
        None => None,
        Some(k) => Some(s[k]),
    }
}

pub open spec fn unique_dirs(s: Seq<DirCacheEntry>) -> bool {
    forall|i: int, j: int| 0 <= i < j < s.len() ==> s[i].resource_dir@ != s[j].resource_dir@
}

/// Whether a shared directory must be compiled again: it has no entry, one
/// of its recorded artifacts is gone, or its combined digest changed.
pub open spec fn dir_needs_recompile(
    s: Seq<DirCacheEntry>,
    dir: Seq<char>,
    artifacts_exist: bool,
    files: Seq<FileRecord>,
) -> bool {
    match dir_entry_index(s, dir) {
        None => true,
        Some(k) => !artifacts_exist || directory_digest(files) != s[k].directory_hash@,
    }
}

proof fn lemma_dir_entry_index_at(s: Seq<DirCacheEntry>, k: int)
    requires
        unique_dirs(s),
        0 <= k < s.len(),
    ensures
        dir_entry_index(s, s[k].resource_dir@) == Some(k),
{
    let c = choose|c: int| 0 <= c < s.len() && s[c].resource_dir@ == s[k].resource_dir@;
    if c < k {
        assert(s[c].resource_dir@ != s[k].resource_dir@);
    } else if c > k {
        assert(s[k].resource_dir@ != s[c].resource_dir@);
    }
}

fn dirs_unique(entries: &Vec<DirCacheEntry>) -> (r: bool)
    ensures
        r == unique_dirs(entries@),
{
    let n = entries.len();
    let mut i: usize = 0;
    while i < n
        invariant
            n == entries@.len(),
            i <= n,
            forall|a: int, b: int| 0 <= a < b < n && a < i ==> entries@[a].resource_dir@ != entries@[b].resource_dir@,
        decreases n - i,
    {
        let mut j: usize = i + 1;
        while j < n
            invariant
                n == entries@.len(),
                i < n,
                i + 1 <= j <= n,
                forall|a: int, b: int| 0 <= a < b < n && a < i ==> entries@[a].resource_dir@ != entries@[b].resource_dir@,
                forall|b: int| i < b < j ==> entries@[i as int].resource_dir@ != entries@[b].resource_dir@,
            decreases n - j,
        {
            if entries[i].resource_dir == entries[j].resource_dir {
                return false;
            }
            j = j + 1;
        }
        i = i + 1;
    }
    true
}

/// Cache of compiled shared directories, filled before the per-configuration
/// builds start and only read afterwards.
pub struct CommonDependencyCache {
    cache_dir: String,
    entries: Vec<DirCacheEntry>,
}

impl CommonDependencyCache {
    pub closed spec fn entries(&self) -> Seq<DirCacheEntry> {
        self.entries@
    }

    pub closed spec fn dir(&self) -> Seq<char> {
        self.cache_dir@
    }

    pub open spec fn wf(&self) -> bool {
        unique_dirs(self.entries())
    }

    /// An empty cache kept in `cache_dir`.
    pub fn new(cache_dir: String) -> (r: Self)
        ensures
            r.wf(),
            r.entries().len() == 0,
            r.dir() == cache_dir@,
    {
        CommonDependencyCache { cache_dir, entries: Vec::new() }
    }

    /// A cache from persisted entries: kept when the schema version matches
    /// and no directory appears twice, else empty.
    pub fn restore(cache_dir: String, version: &String, entries: Vec<DirCacheEntry>) -> (r: Self)
        ensures
            r.wf(),
            r.dir() == cache_dir@,
            r.entries() == (if version@ == CACHE_VERSION@ && unique_dirs(entries@) {
                entries@
            } else {
                Seq::<DirCacheEntry>::empty()
            }),
    {
        let expected = String::from_str(CACHE_VERSION);
        let unique = dirs_unique(&entries);
        if *version == expected && unique {
            CommonDependencyCache { cache_dir, entries }
        } else {
            CommonDependencyCache { cache_dir, entries: Vec::new() }
        }
    }

    pub fn cache_dir(&self) -> (r: &String)
        ensures
            r@ == self.dir(),
    {
        &self.cache_dir
    }

    /// The entries, for persisting.
    pub fn cached_entries(&self) -> (r: &Vec<DirCacheEntry>)
        ensures
            r@ == self.entries(),
    {
        &self.entries
    }

    fn find(&self, resource_dir: &String) -> (r: Option<usize>)
        requires
            self.wf(),
        ensures
            match r {
                None => dir_entry_index(self.entries(), resource_dir@) is None,
                Some(k) => dir_entry_index(self.entries(), resource_dir@) == Some(k as int),
            },
    {
        let mut k: usize = 0;
        while k < self.entries.len()
            invariant
                unique_dirs(self.entries@),
                k <= self.entries@.len(),
                forall|j: int| 0 <= j < k ==> self.entries@[j].resource_dir@ != resource_dir@,
            decreases self.entries@.len() - k,
        {
            if self.entries[k].resource_dir == *resource_dir {
                proof {
                    lemma_dir_entry_index_at(self.entries@, k as int);
                }
                return Some(k);
            }
            k = k + 1;
        }
        None
    }

    /// Whether `resource_dir` must be compiled again, given whether all of
    /// its recorded artifacts still exist and the files now beneath it.
    pub fn needs_recompile(&self, resource_dir: &String, artifacts_exist: bool, files: Vec<(String, Vec<u8>)>) -> (r: bool)
        requires
            self.wf(),
        ensures
            r == dir_needs_recompile(self.entries(), resource_dir@, artifacts_exist, records_of(files@)),
    {
        match self.find(resource_dir) {
            None => true,
            Some(k) => {
                if !artifacts_exist {
                    return true;
                }
                let current = directory_hash(files);
                !bytes_equal(&current, &self.entries[k].directory_hash)
            },
        }
    }

    /// The artifacts recorded for `resource_dir`, if any.
    pub fn get_cached_flat_files(&self, resource_dir: &String) -> (r: Option<Vec<String>>)
        requires
            self.wf(),
        ensures
            match dir_entry_index(self.entries(), resource_dir@) {
                None => r is None,
                Some(k) => r is Some && r->Some_0@ == self.entries()[k].flat_files@,
            },
    {
        match self.find(resource_dir) {
            None => None,
            Some(k) => {
                let mut out: Vec<String> = Vec::new();
                let files = &self.entries[k].flat_files;
                let mut i: usize = 0;
                while i < files.len()
                    invariant
                        i <= files@.len(),
                        out@ == files@.take(i as int),
                    decreases files@.len() - i,
                {
                    out.push(files[i].clone());
                    i = i + 1;
                    proof {
                        assert(out@ =~= files@.take(i as int));
                    }
                }
                proof {
                    assert(files@.take(files@.len() as int) =~= files@);
                }
                Some(out)
            },
        }
    }

    /// Records that `resource_dir`, holding `files`, was compiled to
    /// `flat_files` at `timestamp`, replacing any earlier entry for it.
    pub fn update_entry(
        &mut self,
        resource_dir: &String,
        flat_files: Vec<String>,
        files: Vec<(String, Vec<u8>)>,
        timestamp: u64,
    )
        requires
            old(self).wf(),
        ensures
            final(self).wf(),
            final(self).dir() == old(self).dir(),
            dir_lookup(final(self).entries(), resource_dir@) matches Some(e) && e.directory_hash@
                == directory_digest(records_of(files@)) && e.flat_files@ == flat_files@
                && e.timestamp == timestamp,
            forall|key: Seq<char>| key != resource_dir@ ==> #[trigger] dir_lookup(final(self).entries(), key)
                == dir_lookup(old(self).entries(), key),
    {
        let directory_hash = directory_hash(files);
        let entry = DirCacheEntry {
            resource_dir: resource_dir.clone(),
            directory_hash,
            timestamp,
            flat_files,
        };
        let ghost old_entries = self.entries@;
        match self.find(resource_dir) {
            None => {
                self.entries.push(entry);
                proof {
                    let s = self.entries@;
                    assert(unique_dirs(s)) by {
                        assert forall|i: int, j: int| 0 <= i < j < s.len() implies s[i].resource_dir@ != s[j].resource_dir@ by {
                            if j == s.len() - 1 {
                                if s[i].resource_dir@ == resource_dir@ {
                                    assert(old_entries[i].resource_dir@ == resource_dir@);
                                }
                            } else {
                                assert(s[i] == old_entries[i] && s[j] == old_entries[j]);
                            }
                        }
                    }
                    lemma_dir_entry_index_at(s, s.len() - 1);
                    assert forall|key: Seq<char>| key != resource_dir@ implies #[trigger] dir_lookup(s, key) == dir_lookup(old_entries, key) by {
                        match dir_entry_index(old_entries, key) {
                            None => {
                                if exists|k: int| 0 <= k < s.len() && s[k].resource_dir@ == key {
                                    let k = choose|k: int| 0 <= k < s.len() && s[k].resource_dir@ == key;
                                    assert(old_entries[k].resource_dir@ == key);
                                }
                            },
                            Some(k) => {
                                assert(s[k] == old_entries[k]);
                                lemma_dir_entry_index_at(s, k);
                            },
                        }
                    }
                }
            },
            Some(k) => {
                self.entries.set(k, entry);
                proof {
                    let s = self.entries@;
                    assert(unique_dirs(s)) by {
                        assert forall|i: int, j: int| 0 <= i < j < s.len() implies s[i].resource_dir@ != s[j].resource_dir@ by {
                            assert(old_entries[i].resource_dir@ != old_entries[j].resource_dir@);
                            assert(old_entries[k as int].resource_dir@ == resource_dir@);
                        }
                    }
                    lemma_dir_entry_index_at(s, k as int);
                    assert forall|key: Seq<char>| key != resource_dir@ implies #[trigger] dir_lookup(s, key) == dir_lookup(old_entries, key) by {
                        match dir_entry_index(old_entries, key) {
                            None => {
                                if exists|q: int| 0 <= q < s.len() && s[q].resource_dir@ == key {
                                    let q = choose|q: int| 0 <= q < s.len() && s[q].resource_dir@ == key;
                                    assert(q != k);
                                    assert(old_entries[q].resource_dir@ == key);
                                }
                            },
                            Some(k1) => {
                                assert(k1 != k);
                                assert(s[k1] == old_entries[k1]);
                                lemma_dir_entry_index_at(s, k1);
                            },
                        }
                    }
                }
            },
        }
    }

    /// The artifacts of a shared directory compiled earlier, when its entry
    /// is current (its artifacts exist and its files are unchanged); a
    /// configuration then uses them instead of compiling the directory.
    pub fn reusable_artifacts(&self, resource_dir: &String, artifacts_exist: bool, files: Vec<(String, Vec<u8>)>) -> (r:
        Option<Vec<String>>)
        requires
            self.wf(),
        ensures
            (r is Some) == !dir_needs_recompile(self.entries(), resource_dir@, artifacts_exist, records_of(files@)),
            r matches Some(v) ==> v@ == dir_lookup(self.entries(), resource_dir@)->Some_0.flat_files@,
    {
        if self.needs_recompile(resource_dir, artifacts_exist, files) {
            None
        } else {
            self.get_cached_flat_files(resource_dir)
        }
    }

    /// Drops every entry.
    pub fn clear(&mut self)
        ensures
            final(self).wf(),
            final(self).entries().len() == 0,
            final(self).dir() == old(self).dir(),
    {
        self.entries = Vec::new();
    }
}

} // verus!
