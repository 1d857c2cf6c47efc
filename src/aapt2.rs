use vstd::prelude::*;
use vstd::string::*;

use crate::builder::texts;
use crate::text::{decimal, decimal_string};

verus! {

/// Package id used when a configuration sets none: the standard
/// application id, which dynamic resource loading expects.
pub const DEFAULT_PACKAGE_ID: &'static str = "0x7f";

/// Above this many artifacts the linker gets archives instead of file
/// arguments, to stay clear of command-line length limits.
pub const ARCHIVE_THRESHOLD: usize = 100;

/// The resource compiler and linker.
#[derive(Debug)]
pub struct Aapt2 {
    aapt2_path: String,
}

/// Why the tool cannot be used.
#[derive(Debug, PartialEq, Eq)]
pub enum ToolError {
    /// Neither a configured nor a discovered executable.
    NotFound,
}

/// Everything the link step needs besides its inputs.
#[derive(Debug, Clone)]
pub struct LinkRequest {
    pub manifest_path: String,
    pub android_jar: String,
    pub output_apk: String,
    pub package_name: Option<String>,
    pub version_code: Option<u32>,
    pub version_name: Option<String>,
    pub stable_ids_file: Option<String>,
    pub package_id: Option<String>,
    pub min_sdk_version: Option<u32>,
}

/// The link options, before the inputs.
pub open spec fn link_options(r: LinkRequest) -> Seq<Seq<char>> {
    link_head(r) + (match r.package_name {
        Some(p) => seq!["--rename-manifest-package"@, p@, "--rename-resources-package"@, p@],
        None => seq![],
    }) + (match r.version_code {
        Some(c) => seq!["--version-code"@, decimal(c as nat)],
        None => seq![],
    }) + (match r.version_name {
        Some(n) => seq!["--version-name"@, n@],
        None => seq![],
    }) + (match r.min_sdk_version {
        Some(m) => seq!["--min-sdk-version"@, decimal(m as nat)],
        None => seq![],
    }) + (match r.stable_ids_file {
        Some(s) => seq!["--stable-ids"@, s@, "--emit-ids"@, s@],
        None => seq![],
    }) + seq![
        "--package-id"@,
        match r.package_id {
            Some(p) => p@,
            None => DEFAULT_PACKAGE_ID@,
        },
    ]
}

/// Each overlay input preceded by `-R`, in order.
pub open spec fn overlay_arguments(overlays: Seq<Seq<char>>) -> Seq<Seq<char>>
    decreases overlays.len(),
{
    if overlays.len() == 0 {
        seq![]
    } else {
        overlay_arguments(overlays.drop_last()) + seq!["-R"@, overlays.last()]
    }
}

/// Total number of artifacts in the base set and the overlay sets.
pub open spec fn artifact_count(base: Seq<String>, overlays: Seq<Vec<String>>) -> int
    decreases overlays.len(),
{
    if overlays.len() == 0 {
        base.len() as int
    } else {
        artifact_count(base, overlays.drop_last()) + overlays.last()@.len()
    }
}

pub proof fn lemma_artifact_count_grows(base: Seq<String>, overlays: Seq<Vec<String>>)
    ensures
        artifact_count(base, overlays) >= base.len(),
    decreases overlays.len(),
{
    if overlays.len() > 0 {
        lemma_artifact_count_grows(base, overlays.drop_last());
    }
}

fn push_text(args: &mut Vec<String>, s: &str)
    ensures
        texts(final(args)@) == texts(old(args)@).push(s@),
{
    args.push(String::from_str(s));
    proof {
        assert(texts(final(args)@) =~= texts(old(args)@).push(s@));
    }
}

/// The fixed head of the link options: inputs' manifest, platform jar and
/// output, and the flags every link uses.
pub open spec fn link_head(r: LinkRequest) -> Seq<Seq<char>> {
    seq![
        "link"@,
        "--manifest"@,
        r.manifest_path@,
        "-I"@,
        r.android_jar@,
        "-o"@,
        r.output_apk@,
        "--auto-add-overlay"@,
        "--no-version-vectors"@,
        "--keep-raw-values"@,
        "--allow-reserved-package-id"@,
        "--no-resource-removal"@,
    ]
}

#[verifier::spinoff_prover]
fn head_arguments(request: &LinkRequest) -> (r: Vec<String>)
    ensures
        texts(r@) == link_head(*request),
{
    let mut args: Vec<String> = Vec::new();
    push_text(&mut args, "link");
    push_text(&mut args, "--manifest");
    push_text(&mut args, request.manifest_path.as_str());
    push_text(&mut args, "-I");
    let ghost a = texts(args@);
    proof {
        assert(a =~= seq!["link"@, "--manifest"@, request.manifest_path@, "-I"@]);
    }
    push_text(&mut args, request.android_jar.as_str());
    push_text(&mut args, "-o");
    push_text(&mut args, request.output_apk.as_str());
    push_text(&mut args, "--auto-add-overlay");
    let ghost b = texts(args@);
    proof {
        assert(b =~= a + seq![request.android_jar@, "-o"@, request.output_apk@, "--auto-add-overlay"@]);
    }
    push_text(&mut args, "--no-version-vectors");
    push_text(&mut args, "--keep-raw-values");
    push_text(&mut args, "--allow-reserved-package-id");
    push_text(&mut args, "--no-resource-removal");
    proof {
        assert(texts(args@) =~= b + seq![
            "--no-version-vectors"@,
            "--keep-raw-values"@,
            "--allow-reserved-package-id"@,
            "--no-resource-removal"@,
        ]);
        assert(link_head(*request) =~= a + seq![request.android_jar@, "-o"@, request.output_apk@, "--auto-add-overlay"@]
            + seq![
            "--no-version-vectors"@,
            "--keep-raw-values"@,
            "--allow-reserved-package-id"@,
            "--no-resource-removal"@,
        ]);
    }
    args
}

impl Aapt2 {
    /// The tool at the configured path, else at the discovered one.
    pub fn new(aapt2_path: Option<String>, discovered: Option<String>) -> (r: Result<Aapt2, ToolError>)
        ensures
            match r {
                Ok(t) => t.path() == (match aapt2_path {
                    Some(p) => p@,
                    None => discovered->Some_0@,
                }),
                Err(_) => aapt2_path is None && discovered is None,
            },
    {
        match aapt2_path {
            Some(p) => Ok(Aapt2 { aapt2_path: p }),
            None => match discovered {
                Some(d) => Ok(Aapt2 { aapt2_path: d }),
                None => Err(ToolError::NotFound),
            },
        }
    }

    pub closed spec fn path(&self) -> Seq<char> {
        self.aapt2_path@
    }

    /// The executable's path.
    pub fn executable(&self) -> (r: &String)
        ensures
            r@ == self.path(),
    {
        &self.aapt2_path
    }

    /// The executable's path, consuming the handle.
    pub fn into_path(self) -> (r: String)
        ensures
            r@ == self.path(),
    {
        self.aapt2_path
    }

    /// Whether the link step should pack its inputs into archives.
    pub fn uses_archives(base: &Vec<String>, overlays: &Vec<Vec<String>>) -> (r: bool)
        ensures
            r == (artifact_count(base@, overlays@) > ARCHIVE_THRESHOLD),
    {
        let mut total: usize = base.len();
        if total > ARCHIVE_THRESHOLD {
            proof {
                lemma_artifact_count_grows(base@, overlays@);
                assert(artifact_count(base@, overlays@) >= artifact_count(base@, overlays@.take(0))) by {
                    assert(overlays@.take(0).len() == 0);
                }
            }
            return true;
        }
        let mut i: usize = 0;
        while i < overlays.len()
            invariant
                i <= overlays@.len(),
                total <= ARCHIVE_THRESHOLD,
                total as int == artifact_count(base@, overlays@.take(i as int)),
            decreases overlays@.len() - i,
        {
            proof {
                assert(overlays@.take(i as int + 1).drop_last() =~= overlays@.take(i as int));
            }
            let size = overlays[i].len();
            if size > ARCHIVE_THRESHOLD - total {
                proof {
                    lemma_count_prefix_le(base@, overlays@, i as int + 1);
                }
                return true;
            }
            total = total + size;
            i = i + 1;
        }
        proof {
            assert(overlays@.take(overlays@.len() as int) =~= overlays@);
        }
        false
    }

    /// The link options, before the inputs.
    pub fn link_option_arguments(request: &LinkRequest) -> (r: Vec<String>)
        ensures
            texts(r@) == link_options(*request),
    {
        let mut args = head_arguments(request);
        append_package(&mut args, &request.package_name);
        append_number(&mut args, "--version-code", request.version_code);
        append_text(&mut args, "--version-name", &request.version_name);
        append_number(&mut args, "--min-sdk-version", request.min_sdk_version);
        append_stable_ids(&mut args, &request.stable_ids_file);
        append_package_id(&mut args, &request.package_id);
        args
    }

    /// The link command's arguments, without the executable: the options,
    /// the base inputs, then each overlay input after `-R`, lowest priority
    /// first.
    pub fn link_arguments(request: &LinkRequest, base: &Vec<String>, overlays: &Vec<String>) -> (r: Vec<String>)
        ensures
            texts(r@) == link_options(*request) + texts(base@) + overlay_arguments(texts(overlays@)),
    {
        let mut args = Self::link_option_arguments(request);
        let ghost opts = texts(args@);
        let mut i: usize = 0;
        while i < base.len()
            invariant
                i <= base@.len(),
                texts(args@) == opts + texts(base@.take(i as int)),
            decreases base@.len() - i,
        {
            push_text(&mut args, base[i].as_str());
            i = i + 1;
            proof {
                assert(texts(base@.take(i as int)) =~= texts(base@.take(i as int - 1)).push(base@[i as int - 1]@));
                assert(texts(args@) =~= opts + texts(base@.take(i as int)));
            }
        }
        proof {
            assert(base@.take(base@.len() as int) =~= base@);
        }
        let ghost with_base = texts(args@);
        let mut j: usize = 0;
        while j < overlays.len()
            invariant
                j <= overlays@.len(),
                texts(args@) == with_base + overlay_arguments(texts(overlays@.take(j as int))),
            decreases overlays@.len() - j,
        {
            push_text(&mut args, "-R");
            push_text(&mut args, overlays[j].as_str());
            j = j + 1;
            proof {
                let t = texts(overlays@.take(j as int));
                assert(t.drop_last() =~= texts(overlays@.take(j as int - 1)));
                assert(t.last() == overlays@[j as int - 1]@);
                assert(texts(args@) =~= with_base + overlay_arguments(t));
            }
        }
        proof {
            assert(overlays@.take(overlays@.len() as int) =~= overlays@);
        }
        args
    }
}

fn append_package(args: &mut Vec<String>, value: &Option<String>)
    ensures
        texts(final(args)@) == texts(old(args)@) + (match value {
            Some(p) => seq!["--rename-manifest-package"@, p@, "--rename-resources-package"@, p@],
            None => seq![],
        }),
{
    let ghost before = texts(args@);
    if let Some(p) = value {
        push_text(args, "--rename-manifest-package");
        push_text(args, p.as_str());
        push_text(args, "--rename-resources-package");
        push_text(args, p.as_str());
    }
    proof {
        assert(texts(final(args)@) =~= before + (match value {
            Some(p) => seq!["--rename-manifest-package"@, p@, "--rename-resources-package"@, p@],
            None => seq![],
        }));
    }
}

fn append_stable_ids(args: &mut Vec<String>, value: &Option<String>)
    ensures
        texts(final(args)@) == texts(old(args)@) + (match value {
            Some(s) => seq!["--stable-ids"@, s@, "--emit-ids"@, s@],
            None => seq![],
        }),
{
    let ghost before = texts(args@);
    if let Some(ids) = value {
        push_text(args, "--stable-ids");
        push_text(args, ids.as_str());
        push_text(args, "--emit-ids");
        push_text(args, ids.as_str());
    }
    proof {
        assert(texts(final(args)@) =~= before + (match value {
            Some(s) => seq!["--stable-ids"@, s@, "--emit-ids"@, s@],
            None => seq![],
        }));
    }
}

fn append_package_id(args: &mut Vec<String>, value: &Option<String>)
    ensures
        texts(final(args)@) == texts(old(args)@) + seq![
            "--package-id"@,
            match value {
                Some(p) => p@,
                None => DEFAULT_PACKAGE_ID@,
            },
        ],
{
    let ghost before = texts(args@);
    push_text(args, "--package-id");
    match value {
        Some(p) => push_text(args, p.as_str()),
        None => push_text(args, DEFAULT_PACKAGE_ID),
    }
    proof {
        assert(texts(final(args)@) =~= before + seq![
            "--package-id"@,
            match value {
                Some(p) => p@,
                None => DEFAULT_PACKAGE_ID@,
            },
        ]);
    }
}

fn append_number(args: &mut Vec<String>, flag: &str, value: Option<u32>)
    ensures
        texts(final(args)@) == texts(old(args)@) + (match value {
            Some(v) => seq![flag@, decimal(v as nat)],
            None => seq![],
        }),
{
    let ghost before = texts(args@);
    if let Some(v) = value {
        push_text(args, flag);
        let digits = decimal_string(v as u64);
        push_text(args, digits.as_str());
    }
    proof {
        assert(texts(final(args)@) =~= before + (match value {
            Some(v) => seq![flag@, decimal(v as nat)],
            None => seq![],
        }));
    }
}

fn append_text(args: &mut Vec<String>, flag: &str, value: &Option<String>)
    ensures
        texts(final(args)@) == texts(old(args)@) + (match value {
            Some(v) => seq![flag@, v@],
            None => seq![],
        }),
{
    let ghost before = texts(args@);
    if let Some(v) = value {
        push_text(args, flag);
        push_text(args, v.as_str());
    }
    proof {
        assert(texts(final(args)@) =~= before + (match value {
            Some(v) => seq![flag@, v@],
            None => seq![],
        }));
    }
}

proof fn lemma_count_prefix_le(base: Seq<String>, overlays: Seq<Vec<String>>, k: int)
    requires
        0 <= k <= overlays.len(),
    ensures
        artifact_count(base, overlays.take(k)) <= artifact_count(base, overlays),
    decreases overlays.len(),
{
    if k < overlays.len() {
        lemma_count_prefix_le(base, overlays.drop_last(), k);
        assert(overlays.drop_last().take(k) =~= overlays.take(k));
    } else {
        assert(overlays.take(k) =~= overlays);
    }
}

} // verus!
