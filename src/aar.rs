use vstd::prelude::*;
use vstd::string::*;

use crate::text::{decimal, decimal_string, file_name, file_name_of, stem, stem_of};
use crate::types::{join_path, join_spec, AarInfo};

verus! {

/// Extraction of dependency archives.
pub struct AarExtractor;

/// The name under which the archive at `aar_path` is known: the stem of
/// its file name, or `unknown` when it has none.
pub open spec fn archive_label(aar_path: Seq<char>) -> Seq<char> {
    if file_name_of(aar_path).len() == 0 {
        "unknown"@
    } else {
        stem_of(file_name_of(aar_path))
    }
}

/// The directory the `i`-th archive is extracted into.
pub open spec fn extraction_dir_of(base: Seq<char>, i: nat, aar_path: Seq<char>) -> Seq<char> {
    join_spec(base, "aar_"@ + decimal(i) + "_"@ + archive_label(aar_path))
}

/// The resource directories found in extracted archives, in archive order.
pub open spec fn library_dirs_of(infos: Seq<AarInfo>) -> Seq<String>
    decreases infos.len(),
{
    if infos.len() == 0 {
        seq![]
    } else {
        match infos.last().resource_dir {
            Some(d) => library_dirs_of(infos.drop_last()).push(d),
            None => library_dirs_of(infos.drop_last()),
        }
    }
}

impl AarExtractor {
    /// The directory the `i`-th archive is extracted into, below
    /// `base_temp_dir`, so that archives never share one.
    pub fn extraction_dir(base_temp_dir: &String, i: usize, aar_path: &String) -> (r: String)
        ensures
            r@ == extraction_dir_of(base_temp_dir@, i as nat, aar_path@),
    {
        let name = file_name(aar_path.as_str());
        let label = if name.unicode_len() == 0 {
            String::from_str("unknown")
        } else {
            String::from_str(stem(name))
        };
        let dir_name = String::from_str("aar_").concat(decimal_string(i as u64).as_str()).concat("_").concat(
            label.as_str(),
        );
        join_path(base_temp_dir, dir_name.as_str())
    }

    /// The extraction directories of all archives, in order.
    pub fn extraction_dirs(aar_paths: &Vec<String>, base_temp_dir: &String) -> (r: Vec<String>)
        ensures
            r@.len() == aar_paths@.len(),
            forall|i: int|
                0 <= i < aar_paths@.len() ==> (#[trigger] r@[i])@ == extraction_dir_of(
                    base_temp_dir@,
                    i as nat,
                    aar_paths@[i]@,
                ),
    {
        let mut dirs: Vec<String> = Vec::new();
        let mut i: usize = 0;
        while i < aar_paths.len()
            invariant
                i <= aar_paths@.len(),
                dirs@.len() == i,
                forall|k: int|
                    0 <= k < i ==> (#[trigger] dirs@[k])@ == extraction_dir_of(
                        base_temp_dir@,
                        k as nat,
                        aar_paths@[k]@,
                    ),
            decreases aar_paths@.len() - i,
        {
            dirs.push(Self::extraction_dir(base_temp_dir, i, &aar_paths[i]));
            i = i + 1;
        }
        dirs
    }

    /// The resource directories of the extracted archives that have one,
    /// in archive order.
    pub fn library_dirs(infos: &Vec<AarInfo>) -> (r: Vec<String>)
        ensures
            r@ == library_dirs_of(infos@),
    {
        let mut dirs: Vec<String> = Vec::new();
        let mut i: usize = 0;
        while i < infos.len()
            invariant
                i <= infos@.len(),
                dirs@ == library_dirs_of(infos@.take(i as int)),
            decreases infos@.len() - i,
        {
            proof {
                assert(infos@.take(i as int + 1).drop_last() =~= infos@.take(i as int));
                assert(infos@.take(i as int + 1).last() == infos@[i as int]);
            }
            if let Some(d) = &infos[i].resource_dir {
                dirs.push(d.clone());
            }
            i = i + 1;
        }
        proof {
            assert(infos@.take(infos@.len() as int) =~= infos@);
        }
        dirs
    }
}

} // verus!
