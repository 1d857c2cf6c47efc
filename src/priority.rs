use vstd::prelude::*;
use vstd::string::*;

use crate::builder::{artifact_name, flat_file_name};
use crate::text::{file_name, file_name_of, forward_slashes, has_prefix, starts_with, to_forward_slashes};

verus! {

/// Numeric key of `Main`; library indices stay below it.
pub const MAIN_PRIORITY_VALUE: usize = 1000;

/// Numeric key at which additional directories start.
pub const ADDITIONAL_PRIORITY_BASE: usize = 2000;

/// Priority of a resource directory, following Android's override order:
/// library dependencies < main resources < additional (flavor / build type).
#[derive(Debug, Clone, Copy, PartialEq, Eq, Structural)]
pub enum ResourcePriority {
    /// A directory extracted from a dependency archive (lowest priority).
    Library(usize),
    /// The configuration's main resource directory.
    Main,
    /// An additional directory, in declared order (highest priority).
    Additional(usize),
}

/// Tier of a priority: libraries, then main, then additional directories.
pub open spec fn tier(p: ResourcePriority) -> int {
    match p {
        ResourcePriority::Library(_) => 0,
        ResourcePriority::Main => 1,
        ResourcePriority::Additional(_) => 2,
    }
}

/// Index within a tier (zero for `Main`).
pub open spec fn tier_index(p: ResourcePriority) -> int {
    match p {
        ResourcePriority::Library(i) => i as int,
        ResourcePriority::Main => 0,
        ResourcePriority::Additional(i) => i as int,
    }
}

/// The total order on priorities: by tier, then by index.
pub open spec fn priority_le(a: ResourcePriority, b: ResourcePriority) -> bool {
    tier(a) < tier(b) || (tier(a) == tier(b) && tier_index(a) <= tier_index(b))
}

/// `a` strictly outranks `b`: it comes later in the total order.
pub open spec fn priority_gt(a: ResourcePriority, b: ResourcePriority) -> bool {
    !priority_le(a, b)
}

/// The numeric sort key of a priority.
pub open spec fn priority_value(p: ResourcePriority) -> int {
    match p {
        ResourcePriority::Library(i) => i as int,
        ResourcePriority::Main => MAIN_PRIORITY_VALUE as int,
        ResourcePriority::Additional(i) => ADDITIONAL_PRIORITY_BASE as int + i,
    }
}

/// A priority whose index fits the numeric encoding without colliding with
/// another tier.
pub open spec fn priority_index_valid(p: ResourcePriority) -> bool {
    tier_index(p) < MAIN_PRIORITY_VALUE as int
}

impl ResourcePriority {
    /// Numeric priority: lower values are overridden by higher ones.
    pub fn value(&self) -> (r: usize)
        requires
            priority_value(*self) <= usize::MAX,
        ensures
            r as int == priority_value(*self),
    {
        match self {
            ResourcePriority::Library(idx) => *idx,
            ResourcePriority::Main => MAIN_PRIORITY_VALUE,
            ResourcePriority::Additional(idx) => ADDITIONAL_PRIORITY_BASE + *idx,
        }
    }

    /// Whether `self` is strictly later than `other` in the total order.
    pub fn outranks(&self, other: &ResourcePriority) -> (r: bool)
        ensures
            r == priority_gt(*self, *other),
    {
        match (self, other) {
            (ResourcePriority::Library(a), ResourcePriority::Library(b)) => *a > *b,
            (ResourcePriority::Additional(a), ResourcePriority::Additional(b)) => *a > *b,
            (ResourcePriority::Main, ResourcePriority::Library(_)) => true,
            (ResourcePriority::Additional(_), ResourcePriority::Library(_)) => true,
            (ResourcePriority::Additional(_), ResourcePriority::Main) => true,
            _ => false,
        }
    }

    pub fn is_library(&self) -> (r: bool)
        ensures
            r == (*self is Library),
    {
        match self {
            ResourcePriority::Library(_) => true,
            _ => false,
        }
    }
}

/// Within the valid index range the numeric encoding orders priorities
/// exactly as the tier order does: every library value is below `Main`,
/// `Main` is below every additional value, and within a tier a larger index
/// gives a larger value.
pub proof fn lemma_value_order(i: usize, j: usize)
    requires
        i < MAIN_PRIORITY_VALUE,
        j < MAIN_PRIORITY_VALUE,
    ensures
        priority_value(ResourcePriority::Library(i)) < priority_value(ResourcePriority::Main),
        priority_value(ResourcePriority::Main) < priority_value(ResourcePriority::Additional(j)),
        i + 1 < MAIN_PRIORITY_VALUE ==> priority_value(ResourcePriority::Library(i))
            < priority_value(ResourcePriority::Library((i + 1) as usize)),
        priority_value(ResourcePriority::Additional(j)) < priority_value(
            ResourcePriority::Additional((j + 1) as usize),
        ),
        forall|a: ResourcePriority, b: ResourcePriority|
            priority_index_valid(a) && priority_index_valid(b) ==> (priority_le(a, b)
                <==> priority_value(a) <= priority_value(b)),
{
}

/// A group of compiled artifacts that share one priority.
pub type PriorityGroup = (ResourcePriority, Vec<String>);

/// Inserts `e` after every element of `s` that it does not precede, scanning
/// from the back: one step of a stable insertion sort.
pub open spec fn insert_by_priority<T>(e: (ResourcePriority, T), s: Seq<(ResourcePriority, T)>) -> Seq<(ResourcePriority, T)>
    decreases s.len(),
{
    if s.len() == 0 {
        seq![e]
    } else if priority_le(s.last().0, e.0) {
        s.push(e)
    } else {
        insert_by_priority(e, s.drop_last()).push(s.last())
    }
}

/// Stable sort by ascending priority.
pub open spec fn sort_by_priority<T>(s: Seq<(ResourcePriority, T)>) -> Seq<(ResourcePriority, T)>
    decreases s.len(),
{
    if s.len() == 0 {
        s
    } else {
        insert_by_priority(s.last(), sort_by_priority(s.drop_last()))
    }
}

pub open spec fn sorted_by_priority<T>(s: Seq<(ResourcePriority, T)>) -> bool {
    forall|i: int, j: int| 0 <= i < j < s.len() ==> priority_le(s[i].0, s[j].0)
}

pub open spec fn has_library(s: Seq<PriorityGroup>) -> bool {
    exists|i: int| 0 <= i < s.len() && s[i].0 is Library
}

/// Whether a group belongs to the base set: libraries always, and `Main`
/// when no library is present.
pub open spec fn is_base_group(p: ResourcePriority, with_library: bool) -> bool {
    p is Library || (!with_library && p is Main)
}

/// Concatenated artifacts of the base groups, in order.
pub open spec fn base_artifacts(s: Seq<PriorityGroup>, with_library: bool) -> Seq<String>
    decreases s.len(),
{
    if s.len() == 0 {
        seq![]
    } else if is_base_group(s.last().0, with_library) {
        base_artifacts(s.drop_last(), with_library) + s.last().1@
    } else {
        base_artifacts(s.drop_last(), with_library)
    }
}

/// Artifact sets of the overlay groups, one set per group, in order.
pub open spec fn overlay_artifacts(s: Seq<PriorityGroup>, with_library: bool) -> Seq<Vec<String>>
    decreases s.len(),
{
    if s.len() == 0 {
        seq![]
    } else if is_base_group(s.last().0, with_library) {
        overlay_artifacts(s.drop_last(), with_library)
    } else {
        overlay_artifacts(s.drop_last(), with_library).push(s.last().1)
    }
}

/// The base set and the ordered overlay sets for a list of groups.
pub open spec fn classification(s: Seq<PriorityGroup>) -> (Seq<String>, Seq<Vec<String>>) {
    let sorted = sort_by_priority(s);
    (
        base_artifacts(sorted, has_library(sorted)),
        overlay_artifacts(sorted, has_library(sorted)),
    )
}

/// `insert_by_priority` is an insertion at the first position, from the
/// back, after which every element outranks `e`.
proof fn lemma_insert_position<T>(e: (ResourcePriority, T), s: Seq<(ResourcePriority, T)>, p: int)
    requires
        0 <= p <= s.len(),
        p == 0 || priority_le(s[p - 1].0, e.0),
        forall|k: int| p <= k < s.len() ==> priority_gt(s[k].0, e.0),
    ensures
        insert_by_priority(e, s) == s.insert(p, e),
    decreases s.len(),
{
    if s.len() == 0 {
        assert(s.insert(p, e) =~= seq![e]);
    } else if priority_le(s.last().0, e.0) {
        assert(p == s.len());
        assert(s.insert(p, e) =~= s.push(e));
    } else {
        lemma_insert_position(e, s.drop_last(), p);
        assert(s.drop_last().insert(p, e).push(s.last()) =~= s.insert(p, e));
    }
}

proof fn lemma_insert_keeps_sorted<T>(e: (ResourcePriority, T), s: Seq<(ResourcePriority, T)>)
    requires
        sorted_by_priority(s),
    ensures
        sorted_by_priority(insert_by_priority(e, s)),
        insert_by_priority(e, s).len() == s.len() + 1,
        insert_by_priority(e, s).to_multiset() =~= s.to_multiset().insert(e),
    decreases s.len(),
{
    if s.len() == 0 {
        assert(seq![e].to_multiset() =~= s.to_multiset().insert(e)) by {
            s.to_multiset_ensures();
            seq![e].to_multiset_ensures();
            s.push(e).to_multiset_ensures();
            assert(s.push(e) =~= seq![e]);
        }
    } else if priority_le(s.last().0, e.0) {
        s.to_multiset_ensures();
        assert forall|i: int| 0 <= i < s.len() implies priority_le(s[i].0, e.0) by {
            if i < s.len() - 1 {
                assert(priority_le(s[i].0, s[s.len() - 1].0));
            }
        }
        let q = s.push(e);
        assert forall|i: int, j: int| 0 <= i < j < q.len() implies priority_le(q[i].0, q[j].0) by {
            if j == s.len() {
                assert(q[i] == s[i]);
            } else {
                assert(q[i] == s[i] && q[j] == s[j]);
            }
        }
    } else {
        let t = s.drop_last();
        lemma_insert_keeps_sorted(e, t);
        let r = insert_by_priority(e, t);
        r.to_multiset_ensures();
        s.to_multiset_ensures();
        t.to_multiset_ensures();
        assert(s =~= t.push(s.last()));
        assert forall|i: int| 0 <= i < r.len() implies priority_le(r[i].0, s.last().0) by {
            assert(r.contains(r[i]));
            assert(r.to_multiset().count(r[i]) > 0);
            if r[i] == e {
            } else {
                assert(t.to_multiset().count(r[i]) > 0);
                assert(t.contains(r[i]));
                let k = choose|k: int| 0 <= k < t.len() && t[k] == r[i];
                assert(t[k] == s[k]);
                assert(priority_le(s[k].0, s[s.len() - 1].0));
            }
        }
        let q = r.push(s.last());
        assert forall|i: int, j: int| 0 <= i < j < q.len() implies priority_le(q[i].0, q[j].0) by {
            if j == r.len() {
                assert(q[i] == r[i]);
            } else {
                assert(q[i] == r[i] && q[j] == r[j]);
            }
        }
    }
}

proof fn lemma_sort_sorted<T>(s: Seq<(ResourcePriority, T)>)
    ensures
        sorted_by_priority(sort_by_priority(s)),
        sort_by_priority(s).len() == s.len(),
        sort_by_priority(s).to_multiset() =~= s.to_multiset(),
    decreases s.len(),
{
    if s.len() > 0 {
        lemma_sort_sorted(s.drop_last());
        lemma_insert_keeps_sorted(s.last(), sort_by_priority(s.drop_last()));
        s.to_multiset_ensures();
        s.drop_last().to_multiset_ensures();
        assert(s =~= s.drop_last().push(s.last()));
    }
}

proof fn lemma_sort_of_sorted<T>(s: Seq<(ResourcePriority, T)>)
    requires
        sorted_by_priority(s),
    ensures
        sort_by_priority(s) == s,
    decreases s.len(),
{
    if s.len() > 0 {
        lemma_sort_of_sorted(s.drop_last());
        if s.len() > 1 {
            assert(priority_le(s.drop_last().last().0, s.last().0));
        }
        assert(s.drop_last().push(s.last()) =~= s);
    }
}

/// Classification is unchanged by re-sorting: an already sorted list sorts
/// to itself, and sorting the sorted list again gives the same base and
/// overlay sets.
pub proof fn lemma_classification_resort(s: Seq<PriorityGroup>)
    ensures
        sorted_by_priority(s) ==> sort_by_priority(s) == s,
        sort_by_priority(sort_by_priority(s)) == sort_by_priority(s),
        classification(sort_by_priority(s)) == classification(s),
{
    if sorted_by_priority(s) {
        lemma_sort_of_sorted(s);
    }
    lemma_sort_sorted(s);
    lemma_sort_of_sorted(sort_by_priority(s));
}

/// Stable insertion sort of priority-tagged items by ascending priority.
pub fn sort_groups<T>(groups: Vec<(ResourcePriority, T)>) -> (r: Vec<(ResourcePriority, T)>)
    ensures
        r@ == sort_by_priority(groups@),
{
    let mut rest = groups;
    let mut out: Vec<(ResourcePriority, T)> = Vec::new();
    let ghost orig = rest@;
    let n = rest.len();
    let mut i: usize = 0;
    while i < n
        invariant
            n == orig.len(),
            i <= n,
            rest@ == orig.subrange(i as int, n as int),
            out@ == sort_by_priority(orig.take(i as int)),
        decreases n - i,
    {
        let e = rest.remove(0);
        proof {
            assert(orig.take(i as int + 1).drop_last() =~= orig.take(i as int));
            assert(orig.take(i as int + 1).last() == e);
        }
        let mut p = out.len();
        while p > 0 && out[p - 1].0.outranks(&e.0)
            invariant
                p <= out.len(),
                forall|k: int| p <= k < out.len() ==> priority_gt(out@[k].0, e.0),
            decreases p,
        {
            p = p - 1;
        }
        proof {
            lemma_insert_position(e, out@, p as int);
        }
        out.insert(p, e);
        i = i + 1;
        proof {
            assert(rest@ =~= orig.subrange(i as int, n as int));
        }
    }
    proof {
        assert(orig.take(n as int) =~= orig);
    }
    out
}

/// Splits groups into the base artifact set and the ordered overlay sets:
/// groups are sorted by priority; if any library group exists, libraries
/// form the base and every other group is an overlay, otherwise `Main` is
/// the base and the additional groups are the overlays.
pub fn classify(groups: Vec<PriorityGroup>) -> (r: (Vec<String>, Vec<Vec<String>>))
    ensures
        r.0@ == classification(groups@).0,
        r.1@ == classification(groups@).1,
{
    let mut sorted = sort_groups(groups);
    let ghost s = sorted@;
    let n = sorted.len();
    let mut with_library = false;
    let mut j: usize = 0;
    while j < n
        invariant
            n == s.len(),
            sorted@ == s,
            j <= n,
            with_library == exists|k: int| 0 <= k < j && s[k].0 is Library,
        decreases n - j,
    {
        if sorted[j].0.is_library() {
            with_library = true;
        }
        j = j + 1;
    }
    assert(with_library == has_library(s));
    let mut base: Vec<String> = Vec::new();
    let mut overlays: Vec<Vec<String>> = Vec::new();
    let mut i: usize = 0;
    while i < n
        invariant
            n == s.len(),
            i <= n,
            sorted@ == s.subrange(i as int, n as int),
            base@ == base_artifacts(s.take(i as int), with_library),
            overlays@ == overlay_artifacts(s.take(i as int), with_library),
        decreases n - i,
    {
        let (p, mut files) = sorted.remove(0);
        proof {
            assert(s.take(i as int + 1).drop_last() =~= s.take(i as int));
            assert(s.take(i as int + 1).last() == (p, files));
        }
        let to_base = match p {
            ResourcePriority::Library(_) => true,
            ResourcePriority::Main => !with_library,
            ResourcePriority::Additional(_) => false,
        };
        if to_base {
            base.append(&mut files);
        } else {
            overlays.push(files);
        }
        i = i + 1;
        proof {
            assert(sorted@ =~= s.subrange(i as int, n as int));
        }
    }
    proof {
        assert(s.take(n as int) =~= s);
    }
    (base, overlays)
}


/// A compiled resource and where it came from.
#[derive(Debug)]
pub struct ResourceInfo {
    /// The source file.
    pub source_path: String,
    /// Compiled artifact.
    pub flat_file: String,
    /// Resource directory the source came from.
    pub resource_dir: String,
    pub priority: ResourcePriority,
    /// Path relative to the resource root, used to detect conflicts,
    /// e.g. `res/drawable/icon.png`.
    pub normalized_path: String,
}

impl ResourceInfo {
    /// A field-by-field copy.
    pub fn duplicate(&self) -> (r: ResourceInfo)
        ensures
            r == *self,
    {
        ResourceInfo {
            source_path: self.source_path.clone(),
            flat_file: self.flat_file.clone(),
            resource_dir: self.resource_dir.clone(),
            priority: self.priority,
            normalized_path: self.normalized_path.clone(),
        }
    }
}

/// A recorded conflict: the path, the losing resource, the winning one.
pub type Conflict = (String, ResourceInfo, ResourceInfo);

/// Index of the resource with the given normalized path, if any.
pub open spec fn index_of_path(s: Seq<ResourceInfo>, key: Seq<char>) -> Option<int> {
    if exists|k: int| 0 <= k < s.len() && s[k].normalized_path@ == key {
        Some(choose|k: int| 0 <= k < s.len() && s[k].normalized_path@ == key)
    } else {
        None
    }
}

/// Tracks, for each normalized resource path, the resource of highest
/// priority seen so far, and the conflicts met along the way.
pub struct ResourcePriorityTracker {
    resources: Vec<ResourceInfo>,
    conflicts: Vec<Conflict>,
}

impl ResourcePriorityTracker {
    /// The winning resources, one per normalized path, in insertion order.
    pub closed spec fn resources(&self) -> Seq<ResourceInfo> {
        self.resources@
    }

    /// The conflicts recorded so far, in order.
    pub closed spec fn conflicts(&self) -> Seq<Conflict> {
        self.conflicts@
    }

    /// No two tracked resources share a normalized path.
    pub open spec fn wf(&self) -> bool {
        forall|i: int, j: int|
            0 <= i < j < self.resources().len() ==> self.resources()[i].normalized_path@
                != self.resources()[j].normalized_path@
    }

    pub fn new() -> (r: Self)
        ensures
            r.wf(),
            r.resources() == Seq::<ResourceInfo>::empty(),
            r.conflicts() == Seq::<Conflict>::empty(),
    {
        ResourcePriorityTracker { resources: Vec::new(), conflicts: Vec::new() }
    }

    /// Adds a resource. A resource of a path not seen before is kept; one
    /// that outranks the kept resource of its path replaces it; one that is
    /// outranked is dropped; each of the last two records a conflict. Returns
    /// whether the new resource replaced an earlier one.
    pub fn add_resource(&mut self, info: ResourceInfo) -> (r: bool)
        requires
            old(self).wf(),
        ensures
            final(self).wf(),
            ({
                let old_res = old(self).resources();
                let old_con = old(self).conflicts();
                let new_res = final(self).resources();
                let new_con = final(self).conflicts();
                match index_of_path(old_res, info.normalized_path@) {
                    None => !r && new_res == old_res.push(info) && new_con == old_con,
                    Some(k) => if priority_gt(info.priority, old_res[k].priority) {
                        r && new_res == old_res.update(k, info) && new_con == old_con.push(
                            (info.normalized_path, old_res[k], info),
                        )
                    } else if priority_gt(old_res[k].priority, info.priority) {
                        !r && new_res == old_res && new_con == old_con.push(
                            (info.normalized_path, info, old_res[k]),
                        )
                    } else {
                        !r && new_res == old_res && new_con == old_con
                    },
                }
            }),
    {
        let n = self.resources.len();
        let mut k: usize = 0;
        while k < n && self.resources[k].normalized_path != info.normalized_path
            invariant
                n == self.resources@.len(),
                k <= n,
                forall|j: int| 0 <= j < k ==> self.resources@[j].normalized_path@ != info.normalized_path@,
            decreases n - k,
        {
            k = k + 1;
        }
        if k == n {
            self.resources.push(info);
            return false;
        }
        let ghost old_res = self.resources@;
        proof {
            let c = choose|c: int| 0 <= c < old_res.len() && old_res[c].normalized_path@ == info.normalized_path@;
            assert(c == k) by {
                if c < k {
                } else if c > k {
                    assert(old_res[k as int].normalized_path@ == old_res[c].normalized_path@);
                }
            }
        }
        let existing = self.resources[k].duplicate();
        if info.priority.outranks(&existing.priority) {
            let key = info.normalized_path.clone();
            let winner = info.duplicate();
            self.conflicts.push((key, existing, winner));
            self.resources.set(k, info);
            proof {
                assert forall|i: int, j: int| 0 <= i < j < self.resources@.len() implies self.resources@[i].normalized_path@
                    != self.resources@[j].normalized_path@ by {
                    assert(old_res[i].normalized_path@ != old_res[j].normalized_path@);
                }
            }
            true
        } else if existing.priority.outranks(&info.priority) {
            let key = info.normalized_path.clone();
            self.conflicts.push((key, info, existing));
            false
        } else {
            false
        }
    }

    /// Flat files of the tracked resources, ordered by ascending priority
    /// (stable for equal priorities).
    pub fn get_final_flat_files(&self) -> (r: Vec<String>)
        ensures
            r@ == sort_by_priority(
                self.resources().map_values(|ri: ResourceInfo| (ri.priority, ri.flat_file)),
            ).map_values(|g: (ResourcePriority, String)| g.1),
    {
        let ghost tagged = self.resources@.map_values(|ri: ResourceInfo| (ri.priority, ri.flat_file));
        let mut pairs: Vec<(ResourcePriority, String)> = Vec::new();
        let n = self.resources.len();
        let mut i: usize = 0;
        while i < n
            invariant
                n == self.resources@.len(),
                i <= n,
                tagged == self.resources@.map_values(|ri: ResourceInfo| (ri.priority, ri.flat_file)),
                pairs@ == tagged.take(i as int),
            decreases n - i,
        {
            pairs.push((self.resources[i].priority, self.resources[i].flat_file.clone()));
            i = i + 1;
            proof {
                assert(pairs@ =~= tagged.take(i as int));
            }
        }
        proof {
            assert(tagged.take(n as int) =~= tagged);
        }
        let sorted = sort_groups(pairs);
        let ghost s = sorted@;
        let mut out: Vec<String> = Vec::new();
        let mut j: usize = 0;
        while j < sorted.len()
            invariant
                sorted@ == s,
                j <= s.len(),
                out@ == s.take(j as int).map_values(|g: (ResourcePriority, String)| g.1),
            decreases s.len() - j,
        {
            out.push(sorted[j].1.clone());
            j = j + 1;
            proof {
                assert(out@ =~= s.take(j as int).map_values(|g: (ResourcePriority, String)| g.1));
            }
        }
        proof {
            assert(s.take(s.len() as int) =~= s);
        }
        out
    }

    /// The conflicts recorded so far, in order: each the normalized path,
    /// the losing resource and the winning one.
    pub fn conflict_list(&self) -> (r: &Vec<Conflict>)
        ensures
            r@ == self.conflicts(),
    {
        &self.conflicts
    }

    /// Number of tracked resources and of recorded conflicts.
    pub fn stats(&self) -> (r: (usize, usize))
        ensures
            r.0 == self.resources().len(),
            r.1 == self.conflicts().len(),
    {
        (self.resources.len(), self.conflicts.len())
    }
}


/// Why a path could not be made relative to a resource directory.
#[derive(Debug, PartialEq, Eq)]
pub enum PathError {
    NotUnderResourceDir,
}

/// The directory followed by exactly one separator.
pub open spec fn with_trailing_slash(dir: Seq<char>) -> Seq<char> {
    if dir.len() > 0 && dir.last() == '/' {
        dir
    } else {
        dir + seq!['/']
    }
}

/// The part of `file` below `dir`, if `file` lies there (or is `dir`).
pub open spec fn relative_to(file: Seq<char>, dir: Seq<char>) -> Option<Seq<char>> {
    if has_prefix(file, with_trailing_slash(dir)) {
        Some(file.skip(with_trailing_slash(dir).len() as int))
    } else if file == dir {
        Some(seq![])
    } else {
        None
    }
}

/// Path of a resource for conflict detection: `res/` and its path below
/// the resource directory, with forward slashes; e.g.
/// `/p/res/drawable-hdpi/icon.png` under `/p/res` is
/// `res/drawable-hdpi/icon.png`.
pub fn normalize_resource_path(resource_file: &String, resource_dir: &String) -> (r: Result<String, PathError>)
    ensures
        match relative_to(resource_file@, resource_dir@) {
            Some(rel) => r matches Ok(p) && p@ == "res/"@ + forward_slashes(rel),
            None => r is Err,
        },
{
    let dir = resource_dir.as_str();
    let n = dir.unicode_len();
    let prefix = if n > 0 && dir.get_char(n - 1) == '/' {
        resource_dir.clone()
    } else {
        let p = resource_dir.clone().concat("/");
        proof {
            reveal_strlit("/");
            assert("/"@ =~= seq!['/']);
        }
        p
    };
    proof {
        if n > 0 {
            assert(dir@.last() == dir@[n as int - 1]);
        }
        assert(prefix@ == with_trailing_slash(resource_dir@));
    }
    let file = resource_file.as_str();
    let rel = if starts_with(file, prefix.as_str()) {
        let m = prefix.as_str().unicode_len();
        file.substring_char(m, file.unicode_len())
    } else if *resource_file == *resource_dir {
        proof {
            assert(file@.subrange(0, 0) =~= seq![]);
        }
        file.substring_char(0, 0)
    } else {
        return Err(PathError::NotUnderResourceDir);
    };
    let head = String::from_str("res/");
    let tail = to_forward_slashes(rel);
    Ok(head.concat(tail.as_str()))
}

/// The first of `flat_files` whose name is the artifact name of `source`.
pub open spec fn is_first_match(source: Seq<char>, flat_files: Seq<String>, k: int) -> bool {
    &&& 0 <= k < flat_files.len()
    &&& artifact_name(source) == Some(file_name_of(flat_files[k]@))
    &&& forall|j: int| 0 <= j < k ==> artifact_name(source) != Some(file_name_of(#[trigger] flat_files[j]@))
}

/// The compiled artifact of `source_path` among `flat_files`, found by the
/// compiler's naming convention; none when no artifact has that name.
pub fn find_matching_flat_file(source_path: &String, flat_files: &Vec<String>) -> (r: Option<String>)
    ensures
        match r {
            Some(f) => exists|k: int| is_first_match(source_path@, flat_files@, k) && flat_files@[k] == f,
            None => forall|k: int| 0 <= k < flat_files@.len() ==> artifact_name(source_path@) != Some(
                file_name_of(#[trigger] flat_files@[k]@),
            ),
        },
{
    let expected = match flat_file_name(source_path.as_str()) {
        Some(e) => e,
        None => return None,
    };
    let mut k: usize = 0;
    while k < flat_files.len()
        invariant
            artifact_name(source_path@) == Some(expected@),
            k <= flat_files@.len(),
            forall|j: int| 0 <= j < k ==> artifact_name(source_path@) != Some(file_name_of(#[trigger] flat_files@[j]@)),
        decreases flat_files@.len() - k,
    {
        let name = String::from_str(file_name(flat_files[k].as_str()));
        if name == expected {
            proof {
                assert(is_first_match(source_path@, flat_files@, k as int));
            }
            return Some(flat_files[k].clone());
        }
        k = k + 1;
    }
    None
}

} // verus!
