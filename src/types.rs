use vstd::prelude::*;
use vstd::string::*;

verus! {

/// One build unit. Paths are held as strings.
#[derive(Debug, Clone)]
pub struct BuildConfig {
    pub resource_dir: String,
    pub manifest_path: String,
    pub output_dir: String,
    pub output_file: Option<String>,
    pub package_name: String,
    pub aapt2_path: Option<String>,
    pub android_jar: String,
    pub aar_files: Option<Vec<String>>,
    pub incremental: Option<bool>,
    pub cache_dir: Option<String>,
    pub version_code: Option<u32>,
    pub version_name: Option<String>,
    pub additional_resource_dirs: Option<Vec<String>>,
    pub compiled_dir: Option<String>,
    pub stable_ids_file: Option<String>,
    pub parallel_workers: Option<usize>,
    pub package_id: Option<String>,
}

/// Outcome of compiling resources.
#[derive(Debug)]
pub struct CompileResult {
    pub success: bool,
    pub flat_files: Vec<String>,
    pub errors: Vec<String>,
}

/// Outcome of linking a package.
#[derive(Debug)]
pub struct LinkResult {
    pub success: bool,
    pub apk_path: Option<String>,
    pub errors: Vec<String>,
}

/// What was found in an extracted dependency archive.
#[derive(Debug, Clone)]
pub struct AarInfo {
    pub path: String,
    pub resource_dir: Option<String>,
    pub manifest_path: Option<String>,
    pub extracted_dir: String,
}

/// Outcome of building one configuration.
#[derive(Debug)]
pub struct BuildResult {
    pub success: bool,
    pub apk_path: Option<String>,
    pub errors: Vec<String>,
}


/// A flavor of an app; unset fields fall back to the app's.
#[derive(Debug, Clone)]
pub struct FlavorConfig {
    pub name: String,
    pub base_dir: Option<String>,
    pub resource_dir: Option<String>,
    pub manifest_path: Option<String>,
    pub package_name: Option<String>,
    pub additional_resource_dirs: Option<Vec<String>>,
    pub output_dir: Option<String>,
    pub output_file: Option<String>,
    pub version_code: Option<u32>,
    pub version_name: Option<String>,
    pub package_id: Option<String>,
}

/// An app of a multi-app configuration; unset fields fall back to the
/// shared ones.
#[derive(Debug, Clone)]
pub struct AppConfig {
    pub base_dir: Option<String>,
    pub resource_dir: Option<String>,
    pub manifest_path: Option<String>,
    pub package_name: String,
    pub additional_resource_dirs: Option<Vec<String>>,
    pub output_dir: Option<String>,
    pub output_file: Option<String>,
    pub version_code: Option<u32>,
    pub version_name: Option<String>,
    pub flavors: Option<Vec<FlavorConfig>>,
    pub package_id: Option<String>,
}

/// Several apps sharing defaults.
#[derive(Debug, Clone)]
pub struct MultiAppConfig {
    pub base_dir: Option<String>,
    pub output_dir: String,
    pub output_file: Option<String>,
    pub android_jar: String,
    pub aapt2_path: Option<String>,
    pub aar_files: Option<Vec<String>>,
    pub incremental: Option<bool>,
    pub cache_dir: Option<String>,
    pub version_code: Option<u32>,
    pub version_name: Option<String>,
    pub stable_ids_file: Option<String>,
    pub parallel_workers: Option<usize>,
    pub package_id: Option<String>,
    pub apps: Vec<AppConfig>,
}

/// Why a configuration cannot be built.
#[derive(Debug, PartialEq, Eq)]
pub enum ConfigError {
    /// No resource directory is given and none follows from a base
    /// directory; carries the package name.
    MissingResourceDir(String),
    /// No manifest is given and none follows from a base directory;
    /// carries the package name.
    MissingManifestPath(String),
}

/// `a` if set, else `b`.
pub open spec fn or_opt<T>(a: Option<T>, b: Option<T>) -> Option<T> {
    if a is Some {
        a
    } else {
        b
    }
}

/// `base` joined with the relative `name`, with one separator between them.
pub open spec fn join_spec(base: Seq<char>, name: Seq<char>) -> Seq<char> {
    if base.len() == 0 {
        name
    } else if base.last() == '/' {
        base + name
    } else {
        base + seq!['/'] + name
    }
}

/// An explicit path, else `name` under the base directory, else nothing.
pub open spec fn path_or_default(explicit: Option<String>, base: Option<String>, name: Seq<char>) -> Option<Seq<char>> {
    match explicit {
        Some(p) => Some(p@),
        None => match base {
            Some(b) => Some(join_spec(b@, name)),
            None => None,
        },
    }
}

pub open spec fn paths_view(o: Option<Vec<String>>) -> Option<Seq<String>> {
    match o {
        Some(v) => Some(v@),
        None => None,
    }
}

/// The fields every configuration takes from the shared defaults.
pub open spec fn takes_shared_fields(c: BuildConfig, m: MultiAppConfig) -> bool {
    &&& c.aapt2_path == m.aapt2_path
    &&& c.android_jar == m.android_jar
    &&& paths_view(c.aar_files) == paths_view(m.aar_files)
    &&& c.incremental == m.incremental
    &&& c.cache_dir == m.cache_dir
    &&& c.compiled_dir is None
    &&& c.stable_ids_file == m.stable_ids_file
    &&& c.parallel_workers == m.parallel_workers
}

pub open spec fn app_base_dir(m: MultiAppConfig, a: AppConfig) -> Option<String> {
    or_opt(a.base_dir, m.base_dir)
}

pub open spec fn app_resolvable(m: MultiAppConfig, a: AppConfig) -> bool {
    path_or_default(a.resource_dir, app_base_dir(m, a), "res"@) is Some && path_or_default(
        a.manifest_path,
        app_base_dir(m, a),
        "AndroidManifest.xml"@,
    ) is Some
}

/// `c` is the configuration of app `a` without flavors.
pub open spec fn is_app_config(c: BuildConfig, m: MultiAppConfig, a: AppConfig) -> bool {
    &&& takes_shared_fields(c, m)
    &&& path_or_default(a.resource_dir, app_base_dir(m, a), "res"@) == Some(c.resource_dir@)
    &&& path_or_default(a.manifest_path, app_base_dir(m, a), "AndroidManifest.xml"@) == Some(c.manifest_path@)
    &&& c.output_dir == (match a.output_dir { Some(d) => d, None => m.output_dir })
    &&& c.output_file == or_opt(a.output_file, m.output_file)
    &&& c.package_name == a.package_name
    &&& c.version_code == or_opt(a.version_code, m.version_code)
    &&& c.version_name == or_opt(a.version_name, m.version_name)
    &&& paths_view(c.additional_resource_dirs) == paths_view(a.additional_resource_dirs)
    &&& c.package_id == or_opt(a.package_id, m.package_id)
}

pub open spec fn flavor_base_dir(m: MultiAppConfig, a: AppConfig, f: FlavorConfig) -> Option<String> {
    or_opt(f.base_dir, or_opt(a.base_dir, m.base_dir))
}

pub open spec fn flavor_resolvable(m: MultiAppConfig, a: AppConfig, f: FlavorConfig) -> bool {
    path_or_default(or_opt(f.resource_dir, a.resource_dir), flavor_base_dir(m, a, f), "res"@) is Some
        && path_or_default(
        or_opt(f.manifest_path, a.manifest_path),
        flavor_base_dir(m, a, f),
        "AndroidManifest.xml"@,
    ) is Some
}

/// `c` is the configuration of flavor `f` of app `a`.
pub open spec fn is_flavor_config(c: BuildConfig, m: MultiAppConfig, a: AppConfig, f: FlavorConfig) -> bool {
    &&& takes_shared_fields(c, m)
    &&& path_or_default(or_opt(f.resource_dir, a.resource_dir), flavor_base_dir(m, a, f), "res"@) == Some(
        c.resource_dir@,
    )
    &&& path_or_default(
        or_opt(f.manifest_path, a.manifest_path),
        flavor_base_dir(m, a, f),
        "AndroidManifest.xml"@,
    ) == Some(c.manifest_path@)
    &&& c.output_dir == (match or_opt(f.output_dir, a.output_dir) { Some(d) => d, None => m.output_dir })
    &&& c.output_file == or_opt(f.output_file, or_opt(a.output_file, m.output_file))
    &&& c.package_name@ == (match f.package_name {
        Some(p) => p@,
        None => a.package_name@ + seq!['.'] + f.name@,
    })
    &&& c.version_code == or_opt(f.version_code, or_opt(a.version_code, m.version_code))
    &&& c.version_name == or_opt(f.version_name, or_opt(a.version_name, m.version_name))
    &&& paths_view(c.additional_resource_dirs) == paths_view(
        or_opt(f.additional_resource_dirs, a.additional_resource_dirs),
    )
    &&& c.package_id == or_opt(f.package_id, or_opt(a.package_id, m.package_id))
}

/// Number of configurations an app yields: one per flavor, or one.
pub open spec fn app_config_count(a: AppConfig) -> nat {
    match a.flavors {
        Some(fs) => fs@.len(),
        None => 1,
    }
}

pub open spec fn app_fully_resolvable(m: MultiAppConfig, a: AppConfig) -> bool {
    match a.flavors {
        Some(fs) => forall|i: int| 0 <= i < fs@.len() ==> flavor_resolvable(m, a, #[trigger] fs@[i]),
        None => app_resolvable(m, a),
    }
}

/// `s` holds the configurations of app `a`, in flavor order.
pub open spec fn app_configs_match(m: MultiAppConfig, a: AppConfig, s: Seq<BuildConfig>) -> bool {
    &&& s.len() == app_config_count(a)
    &&& match a.flavors {
        Some(fs) => forall|i: int| 0 <= i < fs@.len() ==> is_flavor_config(#[trigger] s[i], m, a, fs@[i]),
        None => is_app_config(s[0], m, a),
    }
}

/// `v` holds the configurations of `apps`, app after app.
pub open spec fn configs_match(m: MultiAppConfig, apps: Seq<AppConfig>, v: Seq<BuildConfig>) -> bool
    decreases apps.len(),
{
    if apps.len() == 0 {
        v.len() == 0
    } else {
        let k = app_config_count(apps.last());
        &&& v.len() >= k
        &&& configs_match(m, apps.drop_last(), v.take(v.len() - k))
        &&& app_configs_match(m, apps.last(), v.skip(v.len() - k))
    }
}

/// `base` joined with `name`.
pub fn join_path(base: &String, name: &str) -> (r: String)
    ensures
        r@ == join_spec(base@, name@),
{
    let n = base.as_str().unicode_len();
    if n == 0 {
        return String::from_str(name);
    }
    let last = base.as_str().get_char(n - 1);
    let start = base.clone();
    if last == '/' {
        start.concat(name)
    } else {
        let with_sep = start.concat("/");
        proof {
            reveal_strlit("/");
        }
        with_sep.concat(name)
    }
}

fn or_string(a: &Option<String>, b: &Option<String>) -> (r: Option<String>)
    ensures
        r == or_opt(*a, *b),
{
    match a {
        Some(x) => Some(x.clone()),
        None => match b {
            Some(y) => Some(y.clone()),
            None => None,
        },
    }
}

/// A copy of a list of paths.
pub fn copy_paths(v: &Vec<String>) -> (r: Vec<String>)
    ensures
        r@ == v@,
{
    let mut out: Vec<String> = Vec::new();
    let mut i: usize = 0;
    while i < v.len()
        invariant
            i <= v@.len(),
            out@ == v@.take(i as int),
        decreases v@.len() - i,
    {
        out.push(v[i].clone());
        i = i + 1;
        proof {
            assert(out@ =~= v@.take(i as int));
        }
    }
    proof {
        assert(v@.take(v@.len() as int) =~= v@);
    }
    out
}

fn clone_paths(o: &Option<Vec<String>>) -> (r: Option<Vec<String>>)
    ensures
        paths_view(r) == paths_view(*o),
{
    match o {
        None => None,
        Some(v) => Some(copy_paths(v)),
    }
}

/// An explicit path, else `name` under the base directory.
fn resolve_path(explicit: &Option<String>, base: &Option<String>, name: &str) -> (r: Option<String>)
    ensures
        match r {
            Some(p) => path_or_default(*explicit, *base, name@) == Some(p@),
            None => path_or_default(*explicit, *base, name@) is None,
        },
{
    match explicit {
        Some(p) => Some(p.clone()),
        None => match base {
            Some(b) => Some(join_path(b, name)),
            None => None,
        },
    }
}

impl MultiAppConfig {
    /// One build configuration per app without flavors and per flavor of
    /// each app with flavors, in order. A flavor's unset fields fall back to
    /// its app's, and an app's to the shared ones.
    pub fn into_build_configs(self) -> (r: Result<Vec<BuildConfig>, ConfigError>)
        ensures
            match r {
                Ok(v) => configs_match(self, self.apps@, v@),
                Err(_) => exists|i: int| 0 <= i < self.apps@.len() && !app_fully_resolvable(self, #[trigger] self.apps@[i]),
            },
    {
        let mut result: Vec<BuildConfig> = Vec::new();
        let n = self.apps.len();
        let mut i: usize = 0;
        while i < n
            invariant
                n == self.apps@.len(),
                i <= n,
                configs_match(self, self.apps@.take(i as int), result@),
            decreases n - i,
        {
            let app = &self.apps[i];
            let ghost before = result@;
            let mut part: Vec<BuildConfig> = Vec::new();
            match &app.flavors {
                Some(flavors) => {
                    let mut k: usize = 0;
                    while k < flavors.len()
                        invariant
                            n == self.apps@.len(),
                            i < n,
                            self.apps@[i as int] == *app,
                            app.flavors == Some(*flavors),
                            k <= flavors@.len(),
                            part@.len() == k,
                            forall|q: int| 0 <= q < k ==> is_flavor_config(#[trigger] part@[q], self, *app, flavors@[q]),
                        decreases flavors@.len() - k,
                    {
                        match Self::create_build_config_for_flavor_static(app, &flavors[k], &self) {
                            Ok(c) => part.push(c),
                            Err(e) => {
                                proof {
                                    assert(self.apps@[i as int] == *app);
                                    let fs = app.flavors.unwrap();
                                    assert(fs@[k as int] == flavors@[k as int]);
                                    assert(!flavor_resolvable(self, *app, fs@[k as int]));
                                    assert(!app_fully_resolvable(self, self.apps@[i as int]));
                                }
                                return Err(e);
                            },
                        }
                        k = k + 1;
                    }
                },
                None => {
                    match Self::create_build_config_static(app, &self) {
                        Ok(c) => part.push(c),
                        Err(e) => {
                            proof {
                                assert(!app_fully_resolvable(self, self.apps@[i as int]));
                            }
                            return Err(e);
                        },
                    }
                },
            }
            let ghost p = part@;
            result.append(&mut part);
            proof {
                let apps = self.apps@.take(i as int + 1);
                assert(apps.drop_last() =~= self.apps@.take(i as int));
                assert(apps.last() == *app);
                let k = app_config_count(*app);
                assert(p.len() == k);
                assert(result@.take(result@.len() - k) =~= before);
                assert(result@.skip(result@.len() - k) =~= p);
            }
            i = i + 1;
        }
        proof {
            assert(self.apps@.take(n as int) =~= self.apps@);
        }
        Ok(result)
    }

    /// The configuration of an app without flavors.
    fn create_build_config_static(app: &AppConfig, common: &MultiAppConfig) -> (r: Result<BuildConfig, ConfigError>)
        ensures
            match r {
                Ok(c) => is_app_config(c, *common, *app),
                Err(_) => !app_resolvable(*common, *app),
            },
    {
        let base_dir = or_string(&app.base_dir, &common.base_dir);
        let resource_dir = match resolve_path(&app.resource_dir, &base_dir, "res") {
            Some(p) => p,
            None => return Err(ConfigError::MissingResourceDir(app.package_name.clone())),
        };
        let manifest_path = match resolve_path(&app.manifest_path, &base_dir, "AndroidManifest.xml") {
            Some(p) => p,
            None => return Err(ConfigError::MissingManifestPath(app.package_name.clone())),
        };
        let output_dir = match &app.output_dir {
            Some(d) => d.clone(),
            None => common.output_dir.clone(),
        };
        Ok(BuildConfig {
            resource_dir,
            manifest_path,
            output_dir,
            output_file: or_string(&app.output_file, &common.output_file),
            package_name: app.package_name.clone(),
            aapt2_path: or_string(&common.aapt2_path, &None),
            android_jar: common.android_jar.clone(),
            aar_files: clone_paths(&common.aar_files),
            incremental: common.incremental,
            cache_dir: or_string(&common.cache_dir, &None),
            version_code: match app.version_code {
                Some(v) => Some(v),
                None => common.version_code,
            },
            version_name: or_string(&app.version_name, &common.version_name),
            additional_resource_dirs: clone_paths(&app.additional_resource_dirs),
            compiled_dir: None,
            stable_ids_file: or_string(&common.stable_ids_file, &None),
            parallel_workers: common.parallel_workers,
            package_id: or_string(&app.package_id, &common.package_id),
        })
    }

    /// The configuration of flavor `flavor` of `app`.
    fn create_build_config_for_flavor_static(
        app: &AppConfig,
        flavor: &FlavorConfig,
        common: &MultiAppConfig,
    ) -> (r: Result<BuildConfig, ConfigError>)
        ensures
            match r {
                Ok(c) => is_flavor_config(c, *common, *app, *flavor),
                Err(_) => !flavor_resolvable(*common, *app, *flavor),
            },
    {
        let app_base = or_string(&app.base_dir, &common.base_dir);
        let base_dir = or_string(&flavor.base_dir, &app_base);
        let res_choice = or_string(&flavor.resource_dir, &app.resource_dir);
        let resource_dir = match resolve_path(&res_choice, &base_dir, "res") {
            Some(p) => p,
            None => return Err(ConfigError::MissingResourceDir(app.package_name.clone())),
        };
        let manifest_choice = or_string(&flavor.manifest_path, &app.manifest_path);
        let manifest_path = match resolve_path(&manifest_choice, &base_dir, "AndroidManifest.xml") {
            Some(p) => p,
            None => return Err(ConfigError::MissingManifestPath(app.package_name.clone())),
        };
        let package_name = match &flavor.package_name {
            Some(p) => p.clone(),
            None => {
                let dotted = app.package_name.clone().concat(".");
                proof {
                    reveal_strlit(".");
                    assert("."@ =~= seq!['.']);
                }
                dotted.concat(flavor.name.as_str())
            },
        };
        let output_dir = match &flavor.output_dir {
            Some(d) => d.clone(),
            None => match &app.output_dir {
                Some(d) => d.clone(),
                None => common.output_dir.clone(),
            },
        };
        let app_output_file = or_string(&app.output_file, &common.output_file);
        let app_version_name = or_string(&app.version_name, &common.version_name);
        let app_package_id = or_string(&app.package_id, &common.package_id);
        let additional = match &flavor.additional_resource_dirs {
            Some(_) => clone_paths(&flavor.additional_resource_dirs),
            None => clone_paths(&app.additional_resource_dirs),
        };
        Ok(BuildConfig {
            resource_dir,
            manifest_path,
            output_dir,
            output_file: or_string(&flavor.output_file, &app_output_file),
            package_name,
            aapt2_path: or_string(&common.aapt2_path, &None),
            android_jar: common.android_jar.clone(),
            aar_files: clone_paths(&common.aar_files),
            incremental: common.incremental,
            cache_dir: or_string(&common.cache_dir, &None),
            version_code: match flavor.version_code {
                Some(v) => Some(v),
                None => match app.version_code {
                    Some(v) => Some(v),
                    None => common.version_code,
                },
            },
            version_name: or_string(&flavor.version_name, &app_version_name),
            additional_resource_dirs: additional,
            compiled_dir: None,
            stable_ids_file: or_string(&common.stable_ids_file, &None),
            parallel_workers: common.parallel_workers,
            package_id: or_string(&flavor.package_id, &app_package_id),
        })
    }
}


impl BuildConfig {
    /// The built-in configuration used when no configuration file exists.
    /// `android_home` is the Android SDK location, if known; without it the
    /// platform jar path keeps an unexpanded `${ANDROID_HOME}` reference.
    pub fn default_config(android_home: Option<String>) -> (r: BuildConfig)
        ensures
            r.resource_dir@ == "./src/main/res"@,
            r.manifest_path@ == "./src/main/AndroidManifest.xml"@,
            r.output_dir@ == "./build/outputs/skin"@,
            r.package_name@ == "com.example.skin"@,
            r.android_jar@ == (match android_home {
                Some(h) => join_spec(h@, "platforms/android-34/android.jar"@),
                None => "${ANDROID_HOME}/platforms/android-34/android.jar"@,
            }),
            r.output_file is None,
            r.aar_files is None,
            r.aapt2_path is None,
            r.incremental == Some(true),
            r.cache_dir is None,
            r.version_code == Some(1u32),
            r.version_name matches Some(v) && v@ == "1.0.0"@,
            r.additional_resource_dirs is None,
            r.compiled_dir is None,
            r.stable_ids_file is None,
            r.parallel_workers is None,
            r.package_id matches Some(p) && p@ == "0x7f"@,
    {
        let android_jar = match &android_home {
            Some(h) => join_path(h, "platforms/android-34/android.jar"),
            None => String::from_str("${ANDROID_HOME}/platforms/android-34/android.jar"),
        };
        BuildConfig {
            resource_dir: String::from_str("./src/main/res"),
            manifest_path: String::from_str("./src/main/AndroidManifest.xml"),
            output_dir: String::from_str("./build/outputs/skin"),
            output_file: None,
            package_name: String::from_str("com.example.skin"),
            android_jar,
            aar_files: None,
            aapt2_path: None,
            incremental: Some(true),
            cache_dir: None,
            version_code: Some(1),
            version_name: Some(String::from_str("1.0.0")),
            additional_resource_dirs: None,
            compiled_dir: None,
            stable_ids_file: None,
            parallel_workers: None,
            package_id: Some(String::from_str("0x7f")),
        }
    }
}


/// Index of the first `${` at or after `k`, or -1.
pub open spec fn open_from(s: Seq<char>, k: int) -> int
    decreases s.len() - k,
{
    if k < 0 || k + 1 >= s.len() {
        -1
    } else if s[k] == '$' && s[k + 1] == '{' {
        k
    } else {
        open_from(s, k + 1)
    }
}

/// Index of the first `c` at or after `k`, or -1.
pub open spec fn char_from(s: Seq<char>, c: char, k: int) -> int
    decreases s.len() - k,
{
    if k < 0 || k >= s.len() {
        -1
    } else if s[k] == c {
        k
    } else {
        char_from(s, c, k + 1)
    }
}

/// The value of the first variable named `name`, if any.
pub open spec fn var_value(vars: Seq<(String, String)>, name: Seq<char>) -> Option<Seq<char>>
    decreases vars.len(),
{
    if vars.len() == 0 {
        None
    } else if vars[0].0@ == name {
        Some(vars[0].1@)
    } else {
        var_value(vars.drop_first(), name)
    }
}

/// `s` with its `${NAME}` references replaced, left to right, by the values
/// of `vars`; expansion stops, leaving the rest as written, at a reference
/// without a closing brace or to a variable that is not set. Replaced text
/// is not expanded again.
pub open spec fn expand_vars_spec(s: Seq<char>, vars: Seq<(String, String)>) -> Seq<char>
    decreases s.len(),
{
    let i = open_from(s, 0);
    if i < 0 || i + 2 > s.len() {
        s
    } else {
        let rest = s.skip(i + 2);
        let j = char_from(rest, '}', 0);
        if j < 0 || j >= rest.len() {
            s
        } else {
            match var_value(vars, rest.take(j)) {
                None => s,
                Some(v) => s.take(i) + v + expand_vars_spec(rest.skip(j + 1), vars),
            }
        }
    }
}

proof fn lemma_open_from_bounds(s: Seq<char>, k: int)
    requires
        0 <= k,
    ensures
        open_from(s, k) == -1 || (k <= open_from(s, k) && open_from(s, k) + 1 < s.len()),
    decreases s.len() - k,
{
    if k + 1 < s.len() && !(s[k] == '$' && s[k + 1] == '{') {
        lemma_open_from_bounds(s, k + 1);
    }
}

fn find_open(s: &str) -> (r: Option<usize>)
    ensures
        match r {
            Some(i) => i as int == open_from(s@, 0) && i + 1 < s@.len(),
            None => open_from(s@, 0) == -1,
        },
{
    let n = s.unicode_len();
    let mut k: usize = 0;
    while n > 0 && k < n - 1
        invariant
            n == s@.len(),
            open_from(s@, 0) == open_from(s@, k as int),
        decreases n - k,
    {
        if s.get_char(k) == '$' && s.get_char(k + 1) == '{' {
            return Some(k);
        }
        k = k + 1;
    }
    None
}

fn find_char(s: &str, c: char) -> (r: Option<usize>)
    ensures
        match r {
            Some(i) => i as int == char_from(s@, c, 0) && i < s@.len(),
            None => char_from(s@, c, 0) == -1,
        },
{
    let n = s.unicode_len();
    let mut k: usize = 0;
    while k < n
        invariant
            n == s@.len(),
            k <= n,
            char_from(s@, c, 0) == char_from(s@, c, k as int),
        decreases n - k,
    {
        if s.get_char(k) == c {
            return Some(k);
        }
        k = k + 1;
    }
    None
}

fn var_lookup(vars: &Vec<(String, String)>, name: &str) -> (r: Option<String>)
    ensures
        match r {
            Some(v) => var_value(vars@, name@) == Some(v@),
            None => var_value(vars@, name@) is None,
        },
{
    let key = String::from_str(name);
    let mut k: usize = 0;
    proof {
        assert(vars@.skip(0) =~= vars@);
    }
    while k < vars.len()
        invariant
            key@ == name@,
            k <= vars@.len(),
            var_value(vars@, name@) == var_value(vars@.skip(k as int), name@),
        decreases vars@.len() - k,
    {
        proof {
            assert(vars@.skip(k as int).drop_first() =~= vars@.skip(k as int + 1));
            assert(vars@.skip(k as int)[0] == vars@[k as int]);
        }
        if vars[k].0 == key {
            return Some(vars[k].1.clone());
        }
        k = k + 1;
    }
    None
}

/// `path` with its `${NAME}` references expanded from `vars`.
pub fn expand_vars(path: &String, vars: &Vec<(String, String)>) -> (r: String)
    ensures
        r@ == expand_vars_spec(path@, vars@),
{
    let s = path.as_str();
    let n = s.unicode_len();
    let mut out = String::new();
    let mut pos: usize = 0;
    proof {
        assert(s@.skip(0) =~= s@);
    }
    loop
        invariant
            s@ == path@,
            n == s@.len(),
            pos <= n,
            out@ + expand_vars_spec(s@.skip(pos as int), vars@) == expand_vars_spec(s@, vars@),
        decreases n - pos,
    {
        let rest = s.substring_char(pos, n);
        let ghost r = rest@;
        proof {
            assert(r =~= s@.skip(pos as int));
        }
        let i = match find_open(rest) {
            None => {
                proof {
                    assert(expand_vars_spec(r, vars@) == r);
                }
                out.append(rest);
                return out;
            },
            Some(i) => i,
        };
        let m = rest.unicode_len();
        let after = rest.substring_char(i + 2, m);
        proof {
            assert(after@ =~= r.skip(i as int + 2));
        }
        let j = match find_char(after, '}') {
            None => {
                proof {
                    assert(expand_vars_spec(r, vars@) == r);
                }
                out.append(rest);
                return out;
            },
            Some(j) => j,
        };
        let name = after.substring_char(0, j);
        proof {
            assert(after@.take(j as int) =~= name@);
        }
        match var_lookup(vars, name) {
            None => {
                proof {
                    assert(expand_vars_spec(r, vars@) == r);
                }
                out.append(rest);
                return out;
            },
            Some(v) => {
                let ghost before = out@;
                out.append(rest.substring_char(0, i));
                out.append(v.as_str());
                pos = pos + i + 2 + j + 1;
                proof {
                    assert(after@.take(j as int) =~= name@);
                    assert(after@.skip(j as int + 1) =~= s@.skip(pos as int));
                    assert(expand_vars_spec(r, vars@) == r.take(i as int) + v@ + expand_vars_spec(
                        after@.skip(j as int + 1),
                        vars@,
                    ));
                    assert(out@ =~= before + r.take(i as int) + v@);
                }
            },
        }
    }
}

/// Each path of a list with its references expanded.
pub open spec fn expanded_list(o: Option<Vec<String>>, vars: Seq<(String, String)>) -> Option<Seq<Seq<char>>> {
    match o {
        Some(v) => Some(v@.map_values(|p: String| expand_vars_spec(p@, vars))),
        None => None,
    }
}

pub open spec fn expanded_opt(o: Option<String>, vars: Seq<(String, String)>) -> Option<Seq<char>> {
    match o {
        Some(p) => Some(expand_vars_spec(p@, vars)),
        None => None,
    }
}

pub open spec fn opt_view(o: Option<String>) -> Option<Seq<char>> {
    match o {
        Some(p) => Some(p@),
        None => None,
    }
}

pub open spec fn list_view(o: Option<Vec<String>>) -> Option<Seq<Seq<char>>> {
    match o {
        Some(v) => Some(v@.map_values(|p: String| p@)),
        None => None,
    }
}

fn expand_opt(o: &Option<String>, vars: &Vec<(String, String)>) -> (r: Option<String>)
    ensures
        opt_view(r) == expanded_opt(*o, vars@),
{
    match o {
        Some(p) => Some(expand_vars(p, vars)),
        None => None,
    }
}

fn expand_list(o: &Option<Vec<String>>, vars: &Vec<(String, String)>) -> (r: Option<Vec<String>>)
    ensures
        list_view(r) == expanded_list(*o, vars@),
{
    match o {
        None => None,
        Some(v) => {
            let mut out: Vec<String> = Vec::new();
            let mut i: usize = 0;
            while i < v.len()
                invariant
                    i <= v@.len(),
                    out@.map_values(|p: String| p@) == v@.take(i as int).map_values(|p: String| expand_vars_spec(p@, vars@)),
                decreases v@.len() - i,
            {
                let ghost before = out@;
                let e = expand_vars(&v[i], vars);
                out.push(e);
                proof {
                    assert(v@.take(i as int + 1) =~= v@.take(i as int).push(v@[i as int]));
                    assert(out@.map_values(|p: String| p@) =~= before.map_values(|p: String| p@).push(e@));
                    assert(v@.take(i as int + 1).map_values(|p: String| expand_vars_spec(p@, vars@)) =~= v@.take(
                        i as int,
                    ).map_values(|p: String| expand_vars_spec(p@, vars@)).push(expand_vars_spec(v@[i as int]@, vars@)));
                }
                i = i + 1;
            }
            proof {
                assert(v@.take(v@.len() as int) =~= v@);
            }
            Some(out)
        },
    }
}

impl BuildConfig {
    /// Expands `${NAME}` references in every path from `vars` (typically
    /// the process environment); other fields are unchanged.
    pub fn expand_paths(&mut self, vars: &Vec<(String, String)>)
        ensures
            final(self).resource_dir@ == expand_vars_spec(old(self).resource_dir@, vars@),
            final(self).manifest_path@ == expand_vars_spec(old(self).manifest_path@, vars@),
            final(self).output_dir@ == expand_vars_spec(old(self).output_dir@, vars@),
            final(self).android_jar@ == expand_vars_spec(old(self).android_jar@, vars@),
            opt_view(final(self).aapt2_path) == expanded_opt(old(self).aapt2_path, vars@),
            opt_view(final(self).cache_dir) == expanded_opt(old(self).cache_dir, vars@),
            opt_view(final(self).compiled_dir) == expanded_opt(old(self).compiled_dir, vars@),
            opt_view(final(self).stable_ids_file) == expanded_opt(old(self).stable_ids_file, vars@),
            list_view(final(self).aar_files) == expanded_list(old(self).aar_files, vars@),
            list_view(final(self).additional_resource_dirs) == expanded_list(
                old(self).additional_resource_dirs,
                vars@,
            ),
            final(self).output_file == old(self).output_file,
            final(self).package_name == old(self).package_name,
            final(self).incremental == old(self).incremental,
            final(self).version_code == old(self).version_code,
            final(self).version_name == old(self).version_name,
            final(self).parallel_workers == old(self).parallel_workers,
            final(self).package_id == old(self).package_id,
    {
        self.resource_dir = expand_vars(&self.resource_dir, vars);
        self.manifest_path = expand_vars(&self.manifest_path, vars);
        self.output_dir = expand_vars(&self.output_dir, vars);
        self.android_jar = expand_vars(&self.android_jar, vars);
        self.aapt2_path = expand_opt(&self.aapt2_path, vars);
        self.cache_dir = expand_opt(&self.cache_dir, vars);
        self.compiled_dir = expand_opt(&self.compiled_dir, vars);
        self.stable_ids_file = expand_opt(&self.stable_ids_file, vars);
        self.aar_files = expand_list(&self.aar_files, vars);
        self.additional_resource_dirs = expand_list(&self.additional_resource_dirs, vars);
    }
}


/// Values given on the command line; each one that is set replaces the
/// corresponding field of every configuration.
#[derive(Debug, Clone)]
pub struct BuildOverrides {
    pub resource_dir: Option<String>,
    pub manifest_path: Option<String>,
    pub output_dir: Option<String>,
    pub package_name: Option<String>,
    pub android_jar: Option<String>,
    pub aar_files: Vec<String>,
    pub aapt2_path: Option<String>,
    pub incremental: bool,
    pub version_code: Option<u32>,
    pub version_name: Option<String>,
    pub stable_ids_file: Option<String>,
    pub package_id: Option<String>,
}

/// `o` if set, else `old`.
pub open spec fn overridden<T>(o: Option<T>, old: T) -> T {
    match o {
        Some(v) => v,
        None => old,
    }
}

fn override_string(o: &Option<String>, old: String) -> (r: String)
    ensures
        r == overridden(*o, old),
{
    match o {
        Some(v) => v.clone(),
        None => old,
    }
}

impl BuildOverrides {
    /// Applies the set values to `c`.
    pub fn apply(&self, c: &mut BuildConfig)
        ensures
            final(c).resource_dir == overridden(self.resource_dir, old(c).resource_dir),
            final(c).manifest_path == overridden(self.manifest_path, old(c).manifest_path),
            final(c).output_dir == overridden(self.output_dir, old(c).output_dir),
            final(c).package_name == overridden(self.package_name, old(c).package_name),
            final(c).android_jar == overridden(self.android_jar, old(c).android_jar),
            self.aar_files@.len() > 0 ==> paths_view(final(c).aar_files) == Some(self.aar_files@),
            self.aar_files@.len() == 0 ==> final(c).aar_files == old(c).aar_files,
            final(c).aapt2_path == or_opt(self.aapt2_path, old(c).aapt2_path),
            final(c).incremental == (if self.incremental { Some(true) } else { old(c).incremental }),
            final(c).version_code == or_opt(self.version_code, old(c).version_code),
            final(c).version_name == or_opt(self.version_name, old(c).version_name),
            final(c).stable_ids_file == or_opt(self.stable_ids_file, old(c).stable_ids_file),
            final(c).package_id == or_opt(self.package_id, old(c).package_id),
            final(c).output_file == old(c).output_file,
            final(c).cache_dir == old(c).cache_dir,
            final(c).additional_resource_dirs == old(c).additional_resource_dirs,
            final(c).compiled_dir == old(c).compiled_dir,
            final(c).parallel_workers == old(c).parallel_workers,
    {
        c.resource_dir = override_string(&self.resource_dir, c.resource_dir.clone());
        c.manifest_path = override_string(&self.manifest_path, c.manifest_path.clone());
        c.output_dir = override_string(&self.output_dir, c.output_dir.clone());
        c.package_name = override_string(&self.package_name, c.package_name.clone());
        c.android_jar = override_string(&self.android_jar, c.android_jar.clone());
        if self.aar_files.len() > 0 {
            c.aar_files = Some(copy_paths(&self.aar_files));
        }
        if let Some(p) = &self.aapt2_path {
            c.aapt2_path = Some(p.clone());
        }
        if self.incremental {
            c.incremental = Some(true);
        }
        if self.version_code.is_some() {
            c.version_code = self.version_code;
        }
        if let Some(v) = &self.version_name {
            c.version_name = Some(v.clone());
        }
        if let Some(v) = &self.stable_ids_file {
            c.stable_ids_file = Some(v.clone());
        }
        if let Some(v) = &self.package_id {
            c.package_id = Some(v.clone());
        }
    }
}


/// `packages` names the package of `c`.
pub open spec fn names_package(packages: Seq<String>, c: BuildConfig) -> bool {
    exists|i: int| 0 <= i < packages.len() && packages[i]@ == c.package_name@
}

/// The configurations to build: all of them when no package is named,
/// else those whose package is named, in order.
pub fn select_packages(configs: Vec<BuildConfig>, packages: &Vec<String>) -> (r: Vec<BuildConfig>)
    ensures
        packages@.len() == 0 ==> r@ == configs@,
        packages@.len() > 0 ==> r@ == configs@.filter(|c: BuildConfig| names_package(packages@, c)),
{
    if packages.len() == 0 {
        return configs;
    }
    let ghost pred = |c: BuildConfig| names_package(packages@, c);
    let ghost orig = configs@;
    let n = configs.len();
    let mut rest = configs;
    let mut out: Vec<BuildConfig> = Vec::new();
    let mut i: usize = 0;
    while i < n
        invariant
            pred == (|c: BuildConfig| names_package(packages@, c)),
            n == orig.len(),
            i <= n,
            rest@ == orig.subrange(i as int, n as int),
            out@ == orig.take(i as int).filter(pred),
        decreases n - i,
    {
        let c = rest.remove(0);
        proof {
            assert(orig.take(i as int + 1) =~= orig.take(i as int).push(c));
            orig.take(i as int).lemma_filter_push(c, pred);
        }
        let mut k: usize = 0;
        let mut named = false;
        while k < packages.len() && !named
            invariant
                k <= packages@.len(),
                named == exists|q: int| 0 <= q < k && packages@[q]@ == c.package_name@,
            decreases packages@.len() - k,
        {
            if packages[k] == c.package_name {
                named = true;
            }
            k = k + 1;
        }
        proof {
            if !named {
                assert(k == packages@.len());
            }
        }
        if named {
            out.push(c);
        }
        i = i + 1;
        proof {
            assert(rest@ =~= orig.subrange(i as int, n as int));
        }
    }
    proof {
        assert(orig.take(n as int) =~= orig);
    }
    out
}

/// How many configurations build at once: the command-line value, else the
/// configuration file's, else the number of processors; at least one.
pub fn parallel_limit(from_command_line: Option<usize>, from_file: Option<usize>, processors: usize) -> (r: usize)
    ensures
        r == (match or_opt(from_command_line, from_file) {
            Some(n) => if n == 0 { 1 } else { n },
            None => if processors == 0 { 1 } else { processors },
        }),
{
    let chosen = match from_command_line {
        Some(n) => n,
        None => match from_file {
            Some(n) => n,
            None => processors,
        },
    };
    if chosen == 0 {
        1
    } else {
        chosen
    }
}

} // verus!
