use vstd::prelude::*;
use vstd::string::*;
use vstd::utf8::encode_utf8;
use vstd::utf8::encode_utf8_decode_utf8;

use crate::aapt2::{artifact_count, lemma_artifact_count_grows, Aapt2, LinkRequest};
use crate::cache::{
    bytes_lt, file_needs_recompile, lemma_bytes_lt_total, lemma_bytes_lt_transitive, lookup, records,
    unique_sources, BuildCache, CacheEntry, CACHE_VERSION,
};
use crate::priority::{sort_by_priority, sort_groups, ResourcePriority};
use crate::text::{decimal, decimal_string};
use crate::types::{join_path, join_spec, BuildConfig, BuildResult, LinkResult};
use crate::text::{
    contains_text, file_name, file_name_of, has_prefix, occurs_from, parent, parent_of, starts_with, stem, stem_of,
};

verus! {

/// Which files under a resource directory are compiled one by one.
/// Files directly under the directory root, hidden files and `Thumbs.db`
/// are never compiled; beyond those, files in a directory whose name starts
/// with an excluded prefix, and files with an excluded name, are left out.
#[derive(Debug, Clone)]
pub struct ResourceFilter {
    pub excluded_dir_prefixes: Vec<String>,
    pub excluded_file_names: Vec<String>,
}

/// Whether the filter keeps the file at `rel`, a `/`-separated path
/// relative to the resource directory.
pub open spec fn accepts_file(f: ResourceFilter, rel: Seq<char>) -> bool {
    match parent_of(rel) {
        None => false,
        Some(dir) => {
            let dir_name = file_name_of(dir);
            let name = file_name_of(rel);
            &&& forall|i: int|
                0 <= i < f.excluded_dir_prefixes@.len() ==> !has_prefix(
                    dir_name,
                    #[trigger] f.excluded_dir_prefixes@[i]@,
                )
            &&& !has_prefix(name, "."@)
            &&& name != "Thumbs.db"@
            &&& forall|i: int|
                0 <= i < f.excluded_file_names@.len() ==> name != (#[trigger] f.excluded_file_names@[i])@
        },
    }
}

impl ResourceFilter {
    /// The standard exclusions: layout directories, and the `styles.xml`,
    /// `attrs.xml` and `strings.xml` value files.
    pub fn standard() -> (r: ResourceFilter)
        ensures
            r.excluded_dir_prefixes@.len() == 1,
            r.excluded_dir_prefixes@[0]@ == "layout"@,
            r.excluded_file_names@.len() == 3,
            r.excluded_file_names@[0]@ == "styles.xml"@,
            r.excluded_file_names@[1]@ == "attrs.xml"@,
            r.excluded_file_names@[2]@ == "strings.xml"@,
    {
        let mut prefixes: Vec<String> = Vec::new();
        prefixes.push(String::from_str("layout"));
        let mut names: Vec<String> = Vec::new();
        names.push(String::from_str("styles.xml"));
        names.push(String::from_str("attrs.xml"));
        names.push(String::from_str("strings.xml"));
        ResourceFilter { excluded_dir_prefixes: prefixes, excluded_file_names: names }
    }

    /// Whether the file at `rel`, relative to the resource directory, is
    /// compiled.
    pub fn accepts(&self, rel: &String) -> (r: bool)
        ensures
            r == accepts_file(*self, rel@),
    {
        let dir = match parent(rel.as_str()) {
            None => return false,
            Some(d) => d,
        };
        let dir_name = file_name(dir);
        let name = file_name(rel.as_str());
        let mut i: usize = 0;
        while i < self.excluded_dir_prefixes.len()
            invariant
                dir_name@ == file_name_of(dir@),
                name@ == file_name_of(rel@),
                parent_of(rel@) == Some(dir@),
                i <= self.excluded_dir_prefixes@.len(),
                forall|k: int| 0 <= k < i ==> !has_prefix(dir_name@, #[trigger] self.excluded_dir_prefixes@[k]@),
            decreases self.excluded_dir_prefixes@.len() - i,
        {
            if starts_with(dir_name, self.excluded_dir_prefixes[i].as_str()) {
                proof {
                    assert(parent_of(rel@) == Some(dir@));
                    assert(has_prefix(file_name_of(dir@), self.excluded_dir_prefixes@[i as int]@));
                }
                return false;
            }
            i = i + 1;
        }
        if starts_with(name, ".") {
            return false;
        }
        let thumbs = String::from_str("Thumbs.db");
        let name_string = String::from_str(name);
        if name_string == thumbs {
            return false;
        }
        let mut j: usize = 0;
        while j < self.excluded_file_names.len()
            invariant
                name_string@ == name@,
                name@ == file_name_of(rel@),
                parent_of(rel@) == Some(dir@),
                j <= self.excluded_file_names@.len(),
                forall|k: int| 0 <= k < j ==> name@ != (#[trigger] self.excluded_file_names@[k])@,
            decreases self.excluded_file_names@.len() - j,
        {
            if name_string == self.excluded_file_names[j] {
                proof {
                    assert(parent_of(rel@) == Some(dir@));
                    assert(file_name_of(rel@) == (self.excluded_file_names@[j as int])@);
                }
                return false;
            }
            j = j + 1;
        }
        true
    }

    /// The files, relative to the resource directory, that are compiled,
    /// in their original order.
    pub fn select(&self, files: &Vec<String>) -> (r: Vec<String>)
        ensures
            r@ == files@.filter(|f: String| accepts_file(*self, f@)),
    {
        let ghost pred = |f: String| accepts_file(*self, f@);
        let mut out: Vec<String> = Vec::new();
        let mut i: usize = 0;
        while i < files.len()
            invariant
                pred == (|f: String| accepts_file(*self, f@)),
                i <= files@.len(),
                out@ == files@.take(i as int).filter(pred),
            decreases files@.len() - i,
        {
            proof {
                assert(files@.take(i as int + 1) =~= files@.take(i as int).push(files@[i as int]));
                files@.take(i as int).lemma_filter_push(files@[i as int], pred);
            }
            if self.accepts(&files[i]) {
                out.push(files[i].clone());
            }
            i = i + 1;
        }
        proof {
            assert(files@.take(files@.len() as int) =~= files@);
        }
        out
    }
}

/// The name the resource compiler gives the artifact of the file at `rel`
/// (relative to its resource directory): `<dir>_<stem>.arsc.flat` for a
/// file in a `values` directory, `<dir>_<name>.flat` otherwise.
pub open spec fn artifact_name(rel: Seq<char>) -> Option<Seq<char>> {
    match parent_of(rel) {
        None => None,
        Some(dir) => {
            let d = file_name_of(dir);
            let name = file_name_of(rel);
            Some(
                if has_prefix(d, "values"@) {
                    d + "_"@ + stem_of(name) + ".arsc.flat"@
                } else {
                    d + "_"@ + name + ".flat"@
                },
            )
        },
    }
}

/// The artifact name for the file at `rel`; none for a file without a
/// parent directory.
pub fn flat_file_name(rel: &str) -> (r: Option<String>)
    ensures
        match r {
            Some(n) => artifact_name(rel@) == Some(n@),
            None => artifact_name(rel@) is None,
        },
{
    let dir = match parent(rel) {
        None => return None,
        Some(d) => d,
    };
    let d = file_name(dir);
    let name = file_name(rel);
    let head = String::from_str(d).concat("_");
    if starts_with(d, "values") {
        Some(head.concat(stem(name)).concat(".arsc.flat"))
    } else {
        Some(head.concat(name).concat(".flat"))
    }
}

/// Byte key used to order artifact paths.
pub open spec fn path_key(s: String) -> Seq<u8> {
    encode_utf8(s@)
}

/// Strictly increasing by byte order, hence free of duplicates.
pub open spec fn strictly_sorted(s: Seq<String>) -> bool {
    forall|i: int, j: int| 0 <= i < j < s.len() ==> bytes_lt(path_key(s[i]), path_key(s[j]))
}

/// The texts of a sequence of strings.
pub open spec fn texts(s: Seq<String>) -> Seq<Seq<char>> {
    s.map_values(|x: String| x@)
}

/// The paths sorted in byte order, each once.
pub fn sort_dedup_paths(paths: Vec<String>) -> (r: Vec<String>)
    ensures
        strictly_sorted(r@),
        texts(r@).to_set() == texts(paths@).to_set(),
{
    let n = paths.len();
    let mut out: Vec<String> = Vec::new();
    let mut i: usize = 0;
    while i < n
        invariant
            n == paths@.len(),
            i <= n,
            strictly_sorted(out@),
            texts(out@).to_set() == texts(paths@.take(i as int)).to_set(),
        decreases n - i,
    {
        let e = paths[i].clone();
        let key = e.as_str().as_bytes_vec();
        let mut p = out.len();
        while p > 0 && crate::cache::bytes_less(&key, &out[p - 1].as_str().as_bytes_vec())
            invariant
                p <= out@.len(),
                key@ == path_key(e),
                forall|k: int| p <= k < out@.len() ==> bytes_lt(path_key(e), path_key(#[trigger] out@[k])),
            decreases p,
        {
            p = p - 1;
        }
        let ghost before = out@;
        let ghost target = texts(paths@.take(i as int + 1)).to_set();
        proof {
            assert(texts(paths@.take(i as int + 1)) =~= texts(paths@.take(i as int)) + seq![e@]);
            Seq::<Seq<char>>::lemma_to_set_insert_commutes(texts(paths@.take(i as int)), e@);
            assert(target == texts(before).to_set().insert(e@));
        }
        let duplicate = p > 0 && out[p - 1] == e;
        if !duplicate {
            out.insert(p, e);
            proof {
                if p > 0 {
                    lemma_bytes_lt_total(path_key(before[p as int - 1]), path_key(e));
                    encode_utf8_decode_utf8(before[p as int - 1]@);
                    encode_utf8_decode_utf8(e@);
                    assert(before[p as int - 1]@ != e@);
                    assert(bytes_lt(path_key(before[p as int - 1]), path_key(e)));
                }
                assert forall|a: int, b: int| 0 <= a < b < out@.len() implies bytes_lt(path_key(out@[a]), path_key(out@[b])) by {
                    if b == p as int {
                        if a < p - 1 {
                            lemma_bytes_lt_transitive(path_key(before[a]), path_key(before[p as int - 1]), path_key(e));
                        }
                    } else if a == p as int {
                        assert(out@[b] == before[b - 1]);
                    } else if a < p && b > p {
                        assert(out@[a] == before[a] && out@[b] == before[b - 1]);
                    } else if b < p {
                        assert(out@[a] == before[a] && out@[b] == before[b]);
                    } else {
                        assert(out@[a] == before[a - 1] && out@[b] == before[b - 1]);
                    }
                }
                assert(texts(out@) =~= texts(before).insert(p as int, e@));
                assert(texts(out@).to_set() =~= texts(before).to_set().insert(e@)) by {
                    let t = texts(before);
                    let u = texts(out@);
                    assert forall|x: Seq<char>| u.to_set().contains(x) <==> t.to_set().insert(e@).contains(x) by {
                        if u.contains(x) {
                            let k = choose|k: int| 0 <= k < u.len() && u[k] == x;
                            if k < p {
                                assert(t[k] == x);
                            } else if k > p {
                                assert(t[k - 1] == x);
                            }
                        }
                        if t.contains(x) {
                            let k = choose|k: int| 0 <= k < t.len() && t[k] == x;
                            if k < p {
                                assert(u[k] == x);
                            } else {
                                assert(u[k + 1] == x);
                            }
                        }
                        if x == e@ {
                            assert(u[p as int] == e@);
                        }
                    }
                }
            }
        } else {
            proof {
                let t = texts(before);
                assert(t[p as int - 1] == e@);
                assert(t.contains(e@));
                assert(t.to_set().insert(e@) =~= t.to_set());
            }
        }
        i = i + 1;
    }
    proof {
        assert(paths@.take(n as int) =~= paths@);
    }
    out
}


/// A candidate source file as found on disk before compiling: its path,
/// whether the artifact recorded for it still exists, and its content.
#[derive(Debug)]
pub struct SourceState {
    pub path: String,
    pub artifact_exists: bool,
    pub content: Vec<u8>,
}

/// A file after the compile step: its path, its artifact, whether the
/// artifact exists, and the content it was compiled from.
#[derive(Debug)]
pub struct CompiledSource {
    pub path: String,
    pub artifact: String,
    pub artifact_exists: bool,
    pub content: Vec<u8>,
}

/// Which files to compile and which to take from the cache, with their
/// cached artifacts.
#[derive(Debug)]
pub struct CompilePlan {
    pub to_compile: Vec<String>,
    pub cached: Vec<(String, String)>,
}

/// The directory a configuration's file cache is kept in.
pub open spec fn cache_dir_of(c: BuildConfig) -> Seq<char> {
    join_spec(
        match c.cache_dir {
            Some(d) => d@,
            None => join_spec(c.output_dir@, ".build-cache"@),
        },
        c.package_name@,
    )
}

/// The directory a configuration's artifacts are compiled into.
pub open spec fn compiled_dir_of(c: BuildConfig) -> Seq<char> {
    match c.compiled_dir {
        Some(d) => d@,
        None => join_spec(c.output_dir@, c.package_name@),
    }
}

/// The package a configuration produces.
pub open spec fn output_apk_of(c: BuildConfig) -> Seq<char> {
    join_spec(
        c.output_dir@,
        match c.output_file {
            Some(f) => f@,
            None => c.package_name@ + ".skin"@,
        },
    )
}

/// The resource directories of a configuration with their priorities,
/// before sorting: the main directory, each library directory, each
/// additional directory.
pub open spec fn tagged_dirs(c: BuildConfig, library_dirs: Seq<String>) -> Seq<(ResourcePriority, String)> {
    seq![(ResourcePriority::Main, c.resource_dir)] + Seq::new(
        library_dirs.len(),
        |i: int| (ResourcePriority::Library(i as usize), library_dirs[i]),
    ) + match c.additional_resource_dirs {
        Some(v) => Seq::new(v@.len(), |i: int| (ResourcePriority::Additional(i as usize), v@[i])),
        None => seq![],
    }
}

/// The artifacts kept after compiling: those that exist, in input order.
pub open spec fn existing_artifacts(items: Seq<CompiledSource>) -> Seq<String>
    decreases items.len(),
{
    if items.len() == 0 {
        seq![]
    } else if items.last().artifact_exists {
        existing_artifacts(items.drop_last()).push(items.last().artifact)
    } else {
        existing_artifacts(items.drop_last())
    }
}

/// The paths of the files whose cache entries say they must be compiled.
pub open spec fn stale_paths(entries: Seq<CacheEntry>, files: Seq<SourceState>) -> Seq<String>
    decreases files.len(),
{
    if files.len() == 0 {
        seq![]
    } else {
        let f = files.last();
        if file_needs_recompile(entries, f.path@, f.artifact_exists, f.content@) {
            stale_paths(entries, files.drop_last()).push(f.path)
        } else {
            stale_paths(entries, files.drop_last())
        }
    }
}

/// The fresh files with their cached artifacts.
pub open spec fn fresh_pairs(entries: Seq<CacheEntry>, files: Seq<SourceState>) -> Seq<(Seq<char>, Seq<char>)>
    decreases files.len(),
{
    if files.len() == 0 {
        seq![]
    } else {
        let f = files.last();
        if file_needs_recompile(entries, f.path@, f.artifact_exists, f.content@) {
            fresh_pairs(entries, files.drop_last())
        } else {
            fresh_pairs(entries, files.drop_last()).push((f.path@, lookup(entries, f.path@)->Some_0.flat_file@))
        }
    }
}

pub open spec fn pair_texts(s: Seq<(String, String)>) -> Seq<(Seq<char>, Seq<char>)> {
    s.map_values(|p: (String, String)| (p.0@, p.1@))
}

/// Builds the package of one configuration.
pub struct SkinBuilder {
    config: BuildConfig,
    aapt2: Aapt2,
    cache: Option<BuildCache>,
}

impl SkinBuilder {
    pub closed spec fn spec_config(&self) -> BuildConfig {
        self.config
    }

    pub closed spec fn spec_cache(&self) -> Option<BuildCache> {
        self.cache
    }

    pub open spec fn wf(&self) -> bool {
        self.spec_cache() matches Some(c) ==> c.wf()
    }

    /// A builder for `config`, with an empty file cache, kept under the
    /// configuration's cache directory and scoped by package name, when
    /// incremental builds are on.
    pub fn new(config: BuildConfig, aapt2: Aapt2) -> (r: SkinBuilder)
        ensures
            r.wf(),
            r.spec_config() == config,
            (config.incremental == Some(true)) == (r.spec_cache() is Some),
            r.spec_cache() matches Some(c) ==> c.dir() == cache_dir_of(config) && c.entries().len() == 0,
    {
        let cache = if config.incremental == Some(true) {
            let base = match &config.cache_dir {
                Some(d) => d.clone(),
                None => join_path(&config.output_dir, ".build-cache"),
            };
            Some(BuildCache::new(join_path(&base, config.package_name.as_str())))
        } else {
            None
        };
        SkinBuilder { config, aapt2, cache }
    }

    pub fn config(&self) -> (r: &BuildConfig)
        ensures
            *r == self.spec_config(),
    {
        &self.config
    }

    pub fn aapt2(&self) -> &Aapt2 {
        &self.aapt2
    }

    pub fn cache(&self) -> (r: &Option<BuildCache>)
        ensures
            *r == self.spec_cache(),
    {
        &self.cache
    }

    /// Replaces the empty file cache with persisted entries, kept only when
    /// their schema version matches and no source repeats.
    pub fn restore_cache(&mut self, version: &String, entries: Vec<CacheEntry>)
        requires
            old(self).wf(),
        ensures
            final(self).wf(),
            final(self).spec_config() == old(self).spec_config(),
            (old(self).spec_cache() is Some) == (final(self).spec_cache() is Some),
            final(self).spec_cache() matches Some(c) ==> c.dir() == old(self).spec_cache()->Some_0.dir()
                && c.entries() == (if version@ == CACHE_VERSION@ && unique_sources(entries@) {
                entries@
            } else {
                Seq::<CacheEntry>::empty()
            }),
    {
        if let Some(c) = &self.cache {
            let dir = c.cache_dir().clone();
            self.cache = Some(BuildCache::restore(dir, version, entries));
        }
    }

    /// Where artifacts are compiled.
    pub fn compiled_dir(&self) -> (r: String)
        ensures
            r@ == compiled_dir_of(self.spec_config()),
    {
        match &self.config.compiled_dir {
            Some(d) => d.clone(),
            None => join_path(&self.config.output_dir, self.config.package_name.as_str()),
        }
    }

    /// Where the package is written.
    pub fn output_apk(&self) -> (r: String)
        ensures
            r@ == output_apk_of(self.spec_config()),
    {
        let name = match &self.config.output_file {
            Some(f) => f.clone(),
            None => self.config.package_name.clone().concat(".skin"),
        };
        join_path(&self.config.output_dir, name.as_str())
    }

    /// The resource directories to compile, in ascending priority: library
    /// directories (from extracted archives, in extraction order), then the
    /// main directory, then the additional directories in declared order.
    pub fn resource_dirs(&self, library_dirs: &Vec<String>) -> (r: Vec<(ResourcePriority, String)>)
        ensures
            r@ == sort_by_priority(tagged_dirs(self.spec_config(), library_dirs@)),
    {
        let ghost c = self.config;
        let mut dirs: Vec<(ResourcePriority, String)> = Vec::new();
        dirs.push((ResourcePriority::Main, self.config.resource_dir.clone()));
        let ghost main_part = dirs@;
        let mut i: usize = 0;
        while i < library_dirs.len()
            invariant
                i <= library_dirs@.len(),
                dirs@ == main_part + Seq::new(i as nat, |k: int| (ResourcePriority::Library(k as usize), library_dirs@[k])),
            decreases library_dirs@.len() - i,
        {
            dirs.push((ResourcePriority::Library(i), library_dirs[i].clone()));
            i = i + 1;
            proof {
                assert(dirs@ =~= main_part + Seq::new(i as nat, |k: int| (ResourcePriority::Library(k as usize), library_dirs@[k])));
            }
        }
        let ghost with_libs = dirs@;
        match &self.config.additional_resource_dirs {
            None => {
                proof {
                    assert(dirs@ =~= tagged_dirs(c, library_dirs@));
                }
            },
            Some(v) => {
                let mut j: usize = 0;
                while j < v.len()
                    invariant
                        j <= v@.len(),
                        dirs@ == with_libs + Seq::new(j as nat, |k: int| (ResourcePriority::Additional(k as usize), v@[k])),
                    decreases v@.len() - j,
                {
                    dirs.push((ResourcePriority::Additional(j), v[j].clone()));
                    j = j + 1;
                    proof {
                        assert(dirs@ =~= with_libs + Seq::new(j as nat, |k: int| (ResourcePriority::Additional(k as usize), v@[k])));
                    }
                }
                proof {
                    assert(dirs@ =~= tagged_dirs(c, library_dirs@));
                }
            },
        }
        sort_groups(dirs)
    }

    /// The link request for this configuration; adaptive icons need API
    /// level 26.
    pub fn link_request(&self, manifest_path: String, has_adaptive_icons: bool) -> (r: LinkRequest)
        ensures
            r.manifest_path == manifest_path,
            r.android_jar == self.spec_config().android_jar,
            r.output_apk@ == output_apk_of(self.spec_config()),
            r.package_name == Some(self.spec_config().package_name),
            r.version_code == self.spec_config().version_code,
            r.version_name == self.spec_config().version_name,
            r.stable_ids_file == self.spec_config().stable_ids_file,
            r.package_id == self.spec_config().package_id,
            r.min_sdk_version == (if has_adaptive_icons { Some(26u32) } else { None::<u32> }),
    {
        LinkRequest {
            manifest_path,
            android_jar: self.config.android_jar.clone(),
            output_apk: self.output_apk(),
            package_name: Some(self.config.package_name.clone()),
            version_code: self.config.version_code,
            version_name: match &self.config.version_name {
                Some(v) => Some(v.clone()),
                None => None,
            },
            stable_ids_file: match &self.config.stable_ids_file {
                Some(v) => Some(v.clone()),
                None => None,
            },
            package_id: match &self.config.package_id {
                Some(v) => Some(v.clone()),
                None => None,
            },
            min_sdk_version: if has_adaptive_icons {
                Some(26)
            } else {
                None
            },
        }
    }

    /// Splits the candidate files: without a cache every file is compiled;
    /// with one, the files it reports stale are compiled and the others take
    /// their cached artifacts.
    pub fn plan_compilation(&self, files: &Vec<SourceState>) -> (r: CompilePlan)
        requires
            self.wf(),
        ensures
            match self.spec_cache() {
                None => texts(r.to_compile@) == files@.map_values(|f: SourceState| f.path@) && r.cached@.len() == 0,
                Some(c) => r.to_compile@ == stale_paths(c.entries(), files@) && pair_texts(r.cached@)
                    == fresh_pairs(c.entries(), files@),
            },
    {
        let mut to_compile: Vec<String> = Vec::new();
        let mut cached: Vec<(String, String)> = Vec::new();
        let mut i: usize = 0;
        while i < files.len()
            invariant
                self.wf(),
                i <= files@.len(),
                match self.spec_cache() {
                    None => texts(to_compile@) == files@.take(i as int).map_values(|f: SourceState| f.path@)
                        && cached@.len() == 0,
                    Some(c) => to_compile@ == stale_paths(c.entries(), files@.take(i as int)) && pair_texts(cached@)
                        == fresh_pairs(c.entries(), files@.take(i as int)),
                },
            decreases files@.len() - i,
        {
            let f = &files[i];
            proof {
                assert(files@.take(i as int + 1).drop_last() =~= files@.take(i as int));
                assert(files@.take(i as int + 1).last() == *f);
            }
            match &self.cache {
                None => {
                    let ghost before = texts(to_compile@);
                    to_compile.push(f.path.clone());
                    proof {
                        assert(texts(to_compile@) =~= before.push(f.path@));
                        assert(files@.take(i as int + 1).map_values(|g: SourceState| g.path@) =~= files@.take(i as int).map_values(|g: SourceState| g.path@).push(f.path@));
                    }
                },
                Some(c) => {
                    if c.needs_recompile(&f.path, f.artifact_exists, &f.content) {
                        to_compile.push(f.path.clone());
                    } else {
                        match c.get_cached_flat_file(&f.path) {
                            Some(flat) => {
                                let ghost before = pair_texts(cached@);
                                cached.push((f.path.clone(), flat));
                                proof {
                                    assert(pair_texts(cached@) =~= before.push((f.path@, lookup(c.entries(), f.path@)->Some_0.flat_file@)));
                                }
                            },
                            None => {},
                        }
                    }
                },
            }
            i = i + 1;
        }
        proof {
            assert(files@.take(files@.len() as int) =~= files@);
        }
        CompilePlan { to_compile, cached }
    }

    /// Records compiled and reused files in the cache (when there is one) at
    /// `timestamp`, and returns the artifacts that exist, sorted and each
    /// once.
    pub fn record_compilation(&mut self, items: Vec<CompiledSource>, timestamp: u64) -> (r: Vec<String>)
        requires
            old(self).wf(),
        ensures
            final(self).wf(),
            final(self).spec_config() == old(self).spec_config(),
            (old(self).spec_cache() is Some) == (final(self).spec_cache() is Some),
            strictly_sorted(r@),
            texts(r@).to_set() == texts(existing_artifacts(items@)).to_set(),
            final(self).spec_cache() matches Some(c) ==> forall|i: int|
                0 <= i < items@.len() && (forall|j: int| i < j < items@.len() ==> items@[j].path@ != items@[i].path@)
                    ==> records(c.entries(), #[trigger] items@[i].path@, items@[i].artifact@, items@[i].content@, timestamp),
    {
        let mut kept: Vec<String> = Vec::new();
        let mut i: usize = 0;
        let ghost was_some = self.cache is Some;
        while i < items.len()
            invariant
                self.wf(),
                self.config == old(self).config,
                (self.cache is Some) == was_some,
                was_some == (old(self).cache is Some),
                i <= items@.len(),
                kept@ == existing_artifacts(items@.take(i as int)),
                self.cache matches Some(c) ==> forall|a: int|
                    0 <= a < i && (forall|j: int| a < j < i ==> items@[j].path@ != items@[a].path@)
                        ==> records(c.entries(), #[trigger] items@[a].path@, items@[a].artifact@, items@[a].content@, timestamp),
            decreases items@.len() - i,
        {
            let item = &items[i];
            proof {
                assert(items@.take(i as int + 1).drop_last() =~= items@.take(i as int));
                assert(items@.take(i as int + 1).last() == *item);
            }
            if let Some(c) = &mut self.cache {
                let ghost before = c.entries();
                c.update_entry(&item.path, &item.artifact, &item.content, timestamp);
                proof {
                    assert forall|a: int|
                        0 <= a < i + 1 && (forall|j: int| a < j < i + 1 ==> items@[j].path@ != items@[a].path@)
                            implies records(c.entries(), #[trigger] items@[a].path@, items@[a].artifact@, items@[a].content@, timestamp) by {
                        if a < i {
                            assert(items@[i as int].path@ != items@[a].path@);
                            assert(lookup(c.entries(), items@[a].path@) == lookup(before, items@[a].path@));
                        }
                    }
                }
            }
            if item.artifact_exists {
                kept.push(item.artifact.clone());
            }
            i = i + 1;
        }
        proof {
            assert(items@.take(items@.len() as int) =~= items@);
        }
        sort_dedup_paths(kept)
    }
}


/// Advice appended to the report of a configuration without resources.
pub const NO_RESOURCES_ADVICE: &'static str = "Possible solutions:\n  1. Make sure you're running 'asb build' from your Android project root directory\n  2. Create a config file with: asb init\n  3. Specify custom paths with: asb build --resource-dir <path> --manifest <path> --android-jar <path>\n  4. Check that your resource directory contains valid Android resources\n";

/// One line per missing directory.
pub open spec fn missing_dir_lines(missing: Seq<String>) -> Seq<char>
    decreases missing.len(),
{
    if missing.len() == 0 {
        seq![]
    } else {
        missing_dir_lines(missing.drop_last()) + "  - "@ + missing.last()@ + "\n"@
    }
}

/// The error reported when a configuration yields no artifacts: it names
/// every missing resource directory and suggests fixes.
pub open spec fn no_resources_report(missing: Seq<String>) -> Seq<char> {
    "No resources found to compile.\n\n"@ + (if missing.len() > 0 {
        "The following resource directories do not exist:\n"@ + missing_dir_lines(missing) + "\n"@
    } else {
        seq![]
    }) + NO_RESOURCES_ADVICE@
}

/// The error reported when a configuration yields no artifacts.
pub fn no_resources_message(missing: &Vec<String>) -> (r: String)
    ensures
        r@ == no_resources_report(missing@),
{
    let mut msg = String::from_str("No resources found to compile.\n\n");
    if missing.len() > 0 {
        let mut lines = String::new();
        let mut i: usize = 0;
        while i < missing.len()
            invariant
                i <= missing@.len(),
                lines@ == missing_dir_lines(missing@.take(i as int)),
            decreases missing@.len() - i,
        {
            proof {
                assert(missing@.take(i as int + 1).drop_last() =~= missing@.take(i as int));
                assert(missing@.take(i as int + 1).last() == missing@[i as int]);
            }
            lines.append("  - ");
            lines.append(missing[i].as_str());
            lines.append("\n");
            i = i + 1;
        }
        proof {
            assert(missing@.take(missing@.len() as int) =~= missing@);
        }
        msg.append("The following resource directories do not exist:\n");
        msg.append(lines.as_str());
        msg.append("\n");
    }
    msg.append(NO_RESOURCES_ADVICE);
    msg
}


/// Name of the subdirectory a resource directory of the given priority is
/// compiled into, so that directories never share one.
pub open spec fn compiled_subdir_of(p: ResourcePriority) -> Seq<char> {
    match p {
        ResourcePriority::Main => "main"@,
        ResourcePriority::Library(i) => "aar_"@ + decimal(i as nat),
        ResourcePriority::Additional(i) => "additional_"@ + decimal(i as nat),
    }
}

/// Name of the subdirectory a resource directory of the given priority is
/// compiled into.
pub fn compiled_subdir(p: ResourcePriority) -> (r: String)
    ensures
        r@ == compiled_subdir_of(p),
{
    match p {
        ResourcePriority::Main => String::from_str("main"),
        ResourcePriority::Library(i) => String::from_str("aar_").concat(decimal_string(i as u64).as_str()),
        ResourcePriority::Additional(i) => String::from_str("additional_").concat(decimal_string(i as u64).as_str()),
    }
}


/// The file at `path` with content `content` declares an adaptive icon: it
/// lies in a `mipmap-anydpi` directory (any qualifiers) and holds an
/// `<adaptive-icon` element.
pub open spec fn declares_adaptive_icon_spec(path: Seq<char>, content: Seq<char>) -> bool {
    match parent_of(path) {
        Some(dir) => has_prefix(file_name_of(dir), "mipmap-anydpi"@) && occurs_from(content, "<adaptive-icon"@, 0),
        None => false,
    }
}

/// Whether the file declares an adaptive icon, which needs API level 26.
pub fn declares_adaptive_icon(path: &String, content: &String) -> (r: bool)
    ensures
        r == declares_adaptive_icon_spec(path@, content@),
{
    match parent(path.as_str()) {
        None => false,
        Some(dir) => starts_with(file_name(dir), "mipmap-anydpi") && contains_text(content.as_str(), "<adaptive-icon"),
    }
}


/// The result of a configuration whose compile step produced no artifact: a
/// failure whose one error names every missing directory. None when there
/// are artifacts to link.
pub fn empty_build_result(base: &Vec<String>, overlays: &Vec<Vec<String>>, missing: &Vec<String>) -> (r: Option<
    BuildResult,
>)
    ensures
        (r is Some) == (artifact_count(base@, overlays@) == 0),
        r matches Some(b) ==> !b.success && b.apk_path is None && b.errors@.len() == 1 && b.errors@[0]@
            == no_resources_report(missing@),
{
    let mut empty = base.len() == 0;
    let mut i: usize = 0;
    while i < overlays.len()
        invariant
            i <= overlays@.len(),
            empty == (artifact_count(base@, overlays@.take(i as int)) == 0),
        decreases overlays@.len() - i,
    {
        proof {
            assert(overlays@.take(i as int + 1).drop_last() =~= overlays@.take(i as int));
            lemma_artifact_count_grows(base@, overlays@.take(i as int));
        }
        if overlays[i].len() > 0 {
            empty = false;
        }
        i = i + 1;
    }
    proof {
        assert(overlays@.take(overlays@.len() as int) =~= overlays@);
    }
    if empty {
        let mut errors: Vec<String> = Vec::new();
        errors.push(no_resources_message(missing));
        Some(BuildResult { success: false, apk_path: None, errors })
    } else {
        None
    }
}

/// The result of a configuration once linked: success with the package's
/// path, or failure keeping the linker's errors.
pub fn link_outcome(link: LinkResult) -> (r: BuildResult)
    ensures
        r.success == link.success,
        link.success ==> r.apk_path == link.apk_path && r.errors@.len() == 0,
        !link.success ==> r.apk_path is None && r.errors == link.errors,
{
    if link.success {
        BuildResult { success: true, apk_path: link.apk_path, errors: Vec::new() }
    } else {
        BuildResult { success: false, apk_path: None, errors: link.errors }
    }
}

} // verus!
