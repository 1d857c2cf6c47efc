use vstd::prelude::*;
use vstd::string::*;
use vstd::set_lib::*;

use crate::text::{forward_slashes, slash_char, to_slash};
use crate::types::BuildConfig;

verus! {

/// A build configuration with its position in the input list.
#[derive(Debug)]
pub struct ConfigWithIndex {
    pub index: usize,
    pub config: BuildConfig,
}

/// A resource directory referenced by two or more configurations.
#[derive(Debug)]
pub struct CommonDependency {
    /// The directory, preferably in the form a configuration uses for its
    /// main resource directory.
    pub resource_dir: String,
    /// Indices of the configurations that reference it, ascending.
    pub dependent_configs: Vec<usize>,
}

/// Why configurations could not be ordered.
#[derive(Debug)]
pub enum DependencyError {
    /// The dependency graph has a cycle; the configurations that could not
    /// be placed in the order.
    Cycle(Vec<usize>),
}

/// A path with every backslash turned into a forward slash.
pub open spec fn norm_path(s: Seq<char>) -> Seq<char> {
    forward_slashes(s)
}

/// Configuration `c` lists `d` among its additional resource directories.
pub open spec fn references_dir(c: BuildConfig, d: Seq<char>) -> bool {
    match c.additional_resource_dirs {
        Some(v) => exists|k: int| 0 <= k < v@.len() && norm_path(#[trigger] v@[k]@) == norm_path(d),
        None => false,
    }
}

/// Configuration `i` depends on configuration `j`: `i` lists the main
/// resource directory of `j` as an additional directory.
pub open spec fn depends_on(cs: Seq<BuildConfig>, i: int, j: int) -> bool {
    0 <= i < cs.len() && 0 <= j < cs.len() && i != j && references_dir(cs[i], cs[j].resource_dir@)
}

/// `o` lists every index below `cs.len()` exactly once, and no
/// configuration comes before one it depends on.
pub open spec fn is_build_order(cs: Seq<BuildConfig>, o: Seq<usize>) -> bool {
    &&& o.no_duplicates()
    &&& forall|a: int| 0 <= a < o.len() ==> (o[a] as int) < cs.len()
    &&& forall|v: usize| (v as int) < cs.len() ==> #[trigger] o.contains(v)
    &&& forall|a: int, b: int|
        0 <= a < b < o.len() ==> !#[trigger] depends_on(cs, o[a] as int, o[b] as int)
}

/// Configuration `i` takes part in at least one dependency edge.
pub open spec fn in_dependency_chain(cs: Seq<BuildConfig>, i: int) -> bool {
    exists|j: int| depends_on(cs, i, j) || depends_on(cs, j, i)
}

/// The entries of `o` whose membership in a dependency chain is `chained`,
/// in order.
pub open spec fn select_by_chain(cs: Seq<BuildConfig>, o: Seq<usize>, chained: bool) -> Seq<usize>
    decreases o.len(),
{
    if o.len() == 0 {
        seq![]
    } else if in_dependency_chain(cs, o.last() as int) == chained {
        select_by_chain(cs, o.drop_last(), chained).push(o.last())
    } else {
        select_by_chain(cs, o.drop_last(), chained)
    }
}

pub open spec fn indices_of(s: Seq<ConfigWithIndex>) -> Seq<usize> {
    s.map_values(|c: ConfigWithIndex| c.index)
}

/// Each entry carries the configuration found at its index.
pub open spec fn carries_configs(cs: Seq<BuildConfig>, s: Seq<ConfigWithIndex>) -> bool {
    forall|a: int| 0 <= a < s.len() ==> (#[trigger] s[a]).config == cs[s[a].index as int]
}

/// The grouping returned for configurations in build order `o`: the
/// configurations outside every dependency chain, and, if any configuration
/// is in a chain, one group with all of those.
pub open spec fn is_grouping(
    cs: Seq<BuildConfig>,
    o: Seq<usize>,
    independent: Seq<ConfigWithIndex>,
    groups: Seq<Vec<ConfigWithIndex>>,
) -> bool {
    &&& is_build_order(cs, o)
    &&& indices_of(independent) == select_by_chain(cs, o, false)
    &&& carries_configs(cs, independent)
    &&& if select_by_chain(cs, o, true).len() == 0 {
        groups.len() == 0
    } else {
        groups.len() == 1 && indices_of(groups[0]@) == select_by_chain(cs, o, true)
            && carries_configs(cs, groups[0]@)
    }
}

/// The grouping `g` is the one for some build order of `cs`.
pub open spec fn groups_in_some_order(
    cs: Seq<BuildConfig>,
    g: (Vec<ConfigWithIndex>, Vec<Vec<ConfigWithIndex>>),
) -> bool {
    exists|o: Seq<usize>| is_grouping(cs, o, g.0@, g.1@)
}

/// Whether two paths name the same directory once separators are
/// normalized.
pub fn same_path(a: &String, b: &String) -> (r: bool)
    ensures
        r == (norm_path(a@) == norm_path(b@)),
{
    let sa = a.as_str();
    let sb = b.as_str();
    let la = sa.unicode_len();
    let lb = sb.unicode_len();
    if la != lb {
        proof {
            assert(norm_path(a@).len() != norm_path(b@).len());
        }
        return false;
    }
    let mut i: usize = 0;
    while i < la
        invariant
            sa@ == a@,
            sb@ == b@,
            la == a@.len(),
            la == b@.len(),
            i <= la,
            forall|k: int| 0 <= k < i ==> slash_char(a@[k]) == slash_char(b@[k]),
        decreases la - i,
    {
        if to_slash(sa.get_char(i)) != to_slash(sb.get_char(i)) {
            proof {
                assert(norm_path(a@)[i as int] != norm_path(b@)[i as int]);
            }
            return false;
        }
        i = i + 1;
    }
    proof {
        assert(norm_path(a@) =~= norm_path(b@));
    }
    true
}

/// Whether `c` lists `d` among its additional resource directories.
pub fn config_references(c: &BuildConfig, d: &String) -> (r: bool)
    ensures
        r == references_dir(*c, d@),
{
    match &c.additional_resource_dirs {
        None => false,
        Some(dirs) => {
            let mut k: usize = 0;
            while k < dirs.len()
                invariant
                    c.additional_resource_dirs == Some(*dirs),
                    k <= dirs@.len(),
                    forall|q: int| 0 <= q < k ==> norm_path(#[trigger] dirs@[q]@) != norm_path(d@),
                decreases dirs@.len() - k,
            {
                if same_path(&dirs[k], d) {
                    proof {
                        let v = c.additional_resource_dirs.unwrap();
                        assert(v@[k as int]@ == dirs@[k as int]@);
                        assert(norm_path(v@[k as int]@) == norm_path(d@));
                    }
                    return true;
                }
                k = k + 1;
            }
            false
        }
    }
}

/// A sequence of distinct values below `n` that misses one of them is
/// shorter than `n`.
proof fn lemma_distinct_below(o: Seq<usize>, n: nat, v: usize)
    requires
        o.no_duplicates(),
        forall|a: int| 0 <= a < o.len() ==> (o[a] as int) < n,
        (v as int) < n,
        !o.contains(v),
    ensures
        o.len() < n,
{
    let oi = o.map_values(|x: usize| x as int);
    assert(oi.no_duplicates()) by {
        assert forall|i: int, j: int| 0 <= i < oi.len() && 0 <= j < oi.len() && i != j implies oi[i]
            != oi[j] by {
            assert(o[i] != o[j]);
        }
    }
    oi.unique_seq_to_set();
    let r = set_int_range(0, n as int);
    lemma_int_range(0, n as int);
    assert(oi.to_set().subset_of(r.remove(v as int))) by {
        assert forall|x: int| oi.to_set().contains(x) implies r.remove(v as int).contains(x) by {
            assert(oi.contains(x));
            let i = choose|i: int| 0 <= i < oi.len() && oi[i] == x;
            assert(o[i] != v) by {
                if o[i] == v {
                    assert(o.contains(v));
                }
            }
        }
    }
    assert(r.contains(v as int));
    lemma_len_subset(oi.to_set(), r.remove(v as int));
}

/// Adjacency matrix of size `n` without self edges.
pub open spec fn square_matrix(m: Seq<Vec<bool>>, n: int) -> bool {
    &&& m.len() == n
    &&& forall|i: int| 0 <= i < n ==> (#[trigger] m[i])@.len() == n
    &&& forall|i: int| 0 <= i < n ==> !m[i]@[i]
}

/// `o` orders `0..n` so that whenever `m[i][j]` holds, `j` comes before `i`.
pub open spec fn is_matrix_order(m: Seq<Vec<bool>>, n: int, o: Seq<usize>) -> bool {
    &&& o.no_duplicates()
    &&& forall|a: int| 0 <= a < o.len() ==> (o[a] as int) < n
    &&& forall|v: usize| (v as int) < n ==> #[trigger] o.contains(v)
    &&& forall|a: int, b: int| 0 <= a < b < o.len() ==> !m[o[a] as int]@[o[b] as int]
}

/// `o` orders exactly the nodes below `n` that are not in `rest`, each
/// after the nodes it has an edge to.
pub open spec fn is_partial_matrix_order(m: Seq<Vec<bool>>, n: int, rest: Seq<usize>, o: Seq<usize>) -> bool {
    &&& o.no_duplicates()
    &&& forall|a: int| 0 <= a < o.len() ==> (o[a] as int) < n && !rest.contains(o[a])
    &&& forall|v: usize| (v as int) < n && !rest.contains(v) ==> #[trigger] o.contains(v)
    &&& forall|a: int, b: int| 0 <= a < b < o.len() ==> !m[o[a] as int]@[o[b] as int]
}

/// `rest` lists, ascending, the nodes kept out of the order: each has an
/// edge to another of them, and all other nodes can be ordered.
pub open spec fn is_matrix_cycle_report(m: Seq<Vec<bool>>, n: int, rest: Seq<usize>) -> bool {
    &&& rest.len() > 0
    &&& forall|a: int, b: int| 0 <= a < b < rest.len() ==> rest[a] < rest[b]
    &&& forall|a: int| 0 <= a < rest.len() ==> (rest[a] as int) < n
    &&& forall|a: int|
        #![trigger rest[a]]
        0 <= a < rest.len() ==> exists|w: usize| #[trigger] rest.contains(w) && m[rest[a] as int]@[w as int]
    &&& exists|o: Seq<usize>| is_partial_matrix_order(m, n, rest, o)
}

/// `o` orders exactly the configurations not in `rest`, none before one it
/// depends on.
pub open spec fn is_partial_build_order(cs: Seq<BuildConfig>, rest: Seq<usize>, o: Seq<usize>) -> bool {
    &&& o.no_duplicates()
    &&& forall|a: int| 0 <= a < o.len() ==> (o[a] as int) < cs.len() && !rest.contains(o[a])
    &&& forall|v: usize| (v as int) < cs.len() && !rest.contains(v) ==> #[trigger] o.contains(v)
    &&& forall|a: int, b: int| 0 <= a < b < o.len() ==> !#[trigger] depends_on(cs, o[a] as int, o[b] as int)
}

/// `rest` lists, ascending, the configurations kept out of the build order:
/// each depends on another of them, and all the others can be ordered. No
/// other list has these properties, whatever order of search is used.
pub open spec fn is_cycle_report(cs: Seq<BuildConfig>, rest: Seq<usize>) -> bool {
    &&& rest.len() > 0
    &&& forall|a: int, b: int| 0 <= a < b < rest.len() ==> rest[a] < rest[b]
    &&& forall|a: int| 0 <= a < rest.len() ==> (rest[a] as int) < cs.len()
    &&& forall|a: int| 0 <= a < rest.len() ==> waits_within(cs, rest, #[trigger] rest[a])
    &&& exists|o: Seq<usize>| is_partial_build_order(cs, rest, o)
}

/// Configuration `v` depends on one of `rest`.
pub open spec fn waits_within(cs: Seq<BuildConfig>, rest: Seq<usize>, v: usize) -> bool {
    exists|w: usize| #[trigger] rest.contains(w) && depends_on(cs, v as int, w as int)
}

/// Every unplaced node has an edge to an unplaced node.
pub open spec fn stuck(m: Seq<Vec<bool>>, n: int, placed: Seq<bool>) -> bool {
    forall|i: int|
        0 <= i < n && !placed[i] ==> exists|j: int| 0 <= j < n && m[i]@[j] && !placed[j]
}

proof fn lemma_stuck_prefix(m: Seq<Vec<bool>>, n: int, placed: Seq<bool>, o: Seq<usize>, p: int)
    requires
        square_matrix(m, n),
        n <= usize::MAX,
        placed.len() == n,
        stuck(m, n, placed),
        is_matrix_order(m, n, o),
        0 <= p <= o.len(),
    ensures
        forall|q: int| 0 <= q < p ==> placed[o[q] as int],
    decreases p,
{
    if p > 0 {
        lemma_stuck_prefix(m, n, placed, o, p - 1);
        let v = o[p - 1] as int;
        if !placed[v] {
            let j = choose|j: int| 0 <= j < n && m[v]@[j] && !placed[j];
            assert(o.contains(j as usize));
            let q = choose|q: int| 0 <= q < o.len() && o[q] == j as usize;
            if q > p - 1 {
                assert(!m[o[p - 1] as int]@[o[q] as int]);
            } else if q == p - 1 {
            } else {
                assert(placed[o[q] as int]);
            }
        }
    }
}

/// When every unplaced node waits on another unplaced node, no order of
/// the matrix exists.
proof fn lemma_stuck_no_order(m: Seq<Vec<bool>>, n: int, placed: Seq<bool>, o: Seq<usize>, x: int)
    requires
        square_matrix(m, n),
        n <= usize::MAX,
        placed.len() == n,
        stuck(m, n, placed),
        0 <= x < n,
        !placed[x],
    ensures
        !is_matrix_order(m, n, o),
{
    if is_matrix_order(m, n, o) {
        lemma_stuck_prefix(m, n, placed, o, o.len() as int);
        assert(o.contains(x as usize));
        let q = choose|q: int| 0 <= q < o.len() && o[q] == x as usize;
        assert(placed[o[q] as int]);
    }
}

/// Whether node `i` is unplaced and everything it depends on is placed.
fn is_ready(row: &Vec<bool>, placed: &Vec<bool>, i: usize) -> (r: bool)
    requires
        row@.len() == placed@.len(),
        i < placed@.len(),
    ensures
        r == (!placed@[i as int] && forall|j: int| 0 <= j < row@.len() && row@[j] ==> placed@[j]),
{
    if placed[i] {
        return false;
    }
    let mut j: usize = 0;
    while j < row.len()
        invariant
            row@.len() == placed@.len(),
            j <= row@.len(),
            forall|k: int| 0 <= k < j && row@[k] ==> placed@[k],
        decreases row@.len() - j,
    {
        if row[j] && !placed[j] {
            return false;
        }
        j = j + 1;
    }
    true
}

/// The indices of the unplaced nodes, ascending.
fn unplaced(placed: &Vec<bool>) -> (rest: Vec<usize>)
    ensures
        forall|a: int, b: int| 0 <= a < b < rest@.len() ==> rest@[a] < rest@[b],
        forall|v: usize| #[trigger] rest@.contains(v) <==> ((v as int) < placed@.len() && !placed@[v as int]),
{
    let mut rest: Vec<usize> = Vec::new();
    let mut k: usize = 0;
    while k < placed.len()
        invariant
            k <= placed@.len(),
            forall|a: int, b: int| 0 <= a < b < rest@.len() ==> rest@[a] < rest@[b],
            forall|a: int| 0 <= a < rest@.len() ==> rest@[a] < k && !placed@[rest@[a] as int],
            forall|v: usize| v < k && !placed@[v as int] ==> #[trigger] rest@.contains(v),
        decreases placed@.len() - k,
    {
        let ghost before = rest@;
        if !placed[k] {
            rest.push(k);
        }
        proof {
            assert forall|v: usize| v < k + 1 && !placed@[v as int] implies #[trigger] rest@.contains(v) by {
                if v == k {
                    assert(rest@[before.len() as int] == k);
                } else {
                    assert(before.contains(v));
                    let q = choose|q: int| 0 <= q < before.len() && before[q] == v;
                    assert(rest@[q] == v);
                }
            }
        }
        k = k + 1;
    }
    proof {
        assert forall|v: usize| #[trigger] rest@.contains(v) implies ((v as int) < placed@.len() && !placed@[v as int]) by {
            let q = choose|q: int| 0 <= q < rest@.len() && rest@[q] == v;
        }
    }
    rest
}

/// When the search is stuck, the unplaced nodes form the cycle report and
/// no order of the whole matrix exists.
#[verifier::spinoff_prover]
#[verifier::rlimit(60)]
proof fn lemma_cycle_report(m: Seq<Vec<bool>>, n: int, placed: Seq<bool>, order: Seq<usize>, rest: Seq<usize>)
    requires
        square_matrix(m, n),
        n <= usize::MAX,
        placed.len() == n,
        stuck(m, n, placed),
        rest.len() > 0,
        forall|a: int, b: int| 0 <= a < b < rest.len() ==> rest[a] < rest[b],
        forall|v: usize| #[trigger] rest.contains(v) <==> ((v as int) < n && !placed[v as int]),
        order.no_duplicates(),
        forall|a: int| 0 <= a < order.len() ==> (order[a] as int) < n,
        forall|v: usize| (v as int) < n ==> (placed[v as int] <==> #[trigger] order.contains(v)),
        forall|a: int, j: int|
            0 <= a < order.len() && 0 <= j < n && #[trigger] m[order[a] as int]@[j] ==> exists|q: int|
                0 <= q < a && order[q] == j as usize,
    ensures
        is_matrix_cycle_report(m, n, rest),
        forall|o: Seq<usize>| !is_matrix_order(m, n, o),
{
    assert(rest.contains(rest[0]));
    let x = rest[0] as int;
    assert forall|o: Seq<usize>| !is_matrix_order(m, n, o) by {
        lemma_stuck_no_order(m, n, placed, o, x);
    }
    assert forall|a: int| 0 <= a < rest.len() implies (rest[a] as int) < n by {
        assert(rest.contains(rest[a]));
    }
    assert forall|a: int|
        #![trigger rest[a]]
        0 <= a < rest.len() implies exists|w: usize| #[trigger] rest.contains(w) && m[rest[a] as int]@[w as int] by {
        let i = rest[a] as int;
        assert(rest.contains(rest[a]));
        let j = choose|j: int| 0 <= j < n && m[i]@[j] && !placed[j];
        assert(rest.contains(j as usize));
    }
    assert forall|a: int, b: int| 0 <= a < b < order.len() implies !m[order[a] as int]@[order[b] as int] by {
        if m[order[a] as int]@[order[b] as int] {
            let q = choose|q: int| 0 <= q < a && order[q] == order[b] as usize;
        }
    }
    assert forall|a: int| 0 <= a < order.len() implies (order[a] as int) < n && !rest.contains(order[a]) by {
        assert(order.contains(order[a]));
    }
    assert(is_partial_matrix_order(m, n, rest, order));
}

/// Orders `0..n` so that every node comes after the nodes it has an edge
/// to, or reports the nodes that cannot be placed when no such order exists.
fn topological_sort(n: usize, m: &Vec<Vec<bool>>) -> (r: Result<Vec<usize>, Vec<usize>>)
    requires
        square_matrix(m@, n as int),
    ensures
        match r {
            Ok(o) => is_matrix_order(m@, n as int, o@),
            Err(rest) => is_matrix_cycle_report(m@, n as int, rest@) && forall|o: Seq<usize>|
                !is_matrix_order(m@, n as int, o),
        },
{
    let mut placed: Vec<bool> = Vec::new();
    let mut i: usize = 0;
    while i < n
        invariant
            i <= n,
            placed@.len() == i,
            forall|k: int| 0 <= k < i ==> !placed@[k],
        decreases n - i,
    {
        placed.push(false);
        i = i + 1;
    }
    let mut order: Vec<usize> = Vec::new();
    loop
        invariant
            square_matrix(m@, n as int),
            placed@.len() == n,
            order@.len() <= n,
            order@.no_duplicates(),
            forall|a: int| 0 <= a < order@.len() ==> (order@[a] as int) < n,
            forall|v: usize| (v as int) < n ==> (placed@[v as int] <==> #[trigger] order@.contains(v)),
            forall|a: int, j: int|
                0 <= a < order@.len() && 0 <= j < n && #[trigger] m@[order@[a] as int]@[j] ==> exists|q: int|
                    0 <= q < a && order@[q] == j as usize,
        decreases n - order@.len(),
    {
        let mut found: usize = n;
        let mut c: usize = 0;
        while c < n && found == n
            invariant
                square_matrix(m@, n as int),
                placed@.len() == n,
                c <= n,
                found == n || (found < n && !placed@[found as int] && forall|j: int|
                    0 <= j < n && m@[found as int]@[j] ==> placed@[j]),
                found == n ==> forall|k: int|
                    0 <= k < c && !placed@[k] ==> exists|j: int| 0 <= j < n && m@[k]@[j] && !placed@[j],
            decreases n - c,
        {
            if is_ready(&m[c], &placed, c) {
                found = c;
            }
            c = c + 1;
        }
        if found == n {
            let rest = unplaced(&placed);
            if rest.len() == 0 {
                proof {
                    assert forall|v: usize| (v as int) < n implies placed@[v as int] by {
                        if !placed@[v as int] {
                            assert(rest@.contains(v));
                        }
                    }
                    assert forall|a: int, b: int| 0 <= a < b < order@.len() implies !m@[order@[a] as int]@[order@[b] as int] by {
                        if m@[order@[a] as int]@[order@[b] as int] {
                            let q = choose|q: int| 0 <= q < a && order@[q] == order@[b] as usize;
                        }
                    }
                }
                return Ok(order);
            } else {
                proof {
                    lemma_cycle_report(m@, n as int, placed@, order@, rest@);
                }
                return Err(rest);
            }
        }
        proof {
            assert(!order@.contains(found));
            lemma_distinct_below(order@, n as nat, found);
        }
        let ghost old_order = order@;
        order.push(found);
        placed.set(found, true);
        proof {
            assert forall|v: usize| (v as int) < n implies (placed@[v as int] <==> #[trigger] order@.contains(v)) by {
                if v == found {
                    assert(order@[old_order.len() as int] == found);
                } else {
                    if order@.contains(v) {
                        let q = choose|q: int| 0 <= q < order@.len() && order@[q] == v;
                        assert(old_order[q] == v);
                    }
                    if old_order.contains(v) {
                        let q = choose|q: int| 0 <= q < old_order.len() && old_order[q] == v;
                        assert(order@[q] == v);
                    }
                }
            }
            assert forall|a: int, j: int|
                0 <= a < order@.len() && 0 <= j < n && #[trigger] m@[order@[a] as int]@[j] implies exists|q: int|
                    0 <= q < a && order@[q] == j as usize by {
                if a < old_order.len() {
                    assert(order@[a] == old_order[a]);
                    let q = choose|q: int| 0 <= q < a && old_order[q] == j as usize;
                    assert(order@[q] == j as usize);
                } else {
                    assert(placed@[j] || j == found as int);
                    assert(j != found as int);
                    assert(old_order.contains(j as usize));
                    let q = choose|q: int| 0 <= q < old_order.len() && old_order[q] == j as usize;
                    assert(order@[q] == j as usize);
                }
            }
        }
    }
}


/// The dependency matrix of `cs`: entry `[i][j]` says whether `i` depends on `j`.
pub open spec fn is_dependency_matrix(cs: Seq<BuildConfig>, m: Seq<Vec<bool>>) -> bool {
    &&& m.len() == cs.len()
    &&& forall|i: int| 0 <= i < cs.len() ==> (#[trigger] m[i])@.len() == cs.len()
    &&& forall|i: int, j: int|
        0 <= i < cs.len() && 0 <= j < cs.len() ==> m[i]@[j] == depends_on(cs, i, j)
}

fn dependency_matrix(configs: &Vec<BuildConfig>) -> (m: Vec<Vec<bool>>)
    ensures
        is_dependency_matrix(configs@, m@),
{
    let n = configs.len();
    let mut m: Vec<Vec<bool>> = Vec::new();
    let mut i: usize = 0;
    while i < n
        invariant
            n == configs@.len(),
            i <= n,
            m@.len() == i,
            forall|a: int| 0 <= a < i ==> (#[trigger] m@[a])@.len() == n,
            forall|a: int, j: int| 0 <= a < i && 0 <= j < n ==> m@[a]@[j] == depends_on(configs@, a, j),
        decreases n - i,
    {
        let mut row: Vec<bool> = Vec::new();
        let mut j: usize = 0;
        while j < n
            invariant
                n == configs@.len(),
                i < n,
                j <= n,
                row@.len() == j,
                forall|b: int| 0 <= b < j ==> row@[b] == depends_on(configs@, i as int, b),
            decreases n - j,
        {
            let edge = i != j && config_references(&configs[i], &configs[j].resource_dir);
            row.push(edge);
            j = j + 1;
        }
        m.push(row);
        i = i + 1;
    }
    m
}

/// There is an edge between `i` and `k`, in either direction.
pub open spec fn touches(m: Seq<Vec<bool>>, i: int, k: int) -> bool {
    m[i]@[k] || m[k]@[i]
}

/// Whether configuration `i` has an edge to or from another configuration.
fn chain_member(m: &Vec<Vec<bool>>, n: usize, i: usize) -> (r: bool)
    requires
        square_matrix(m@, n as int),
        i < n,
    ensures
        r == exists|j: int| 0 <= j < n && touches(m@, i as int, j),
{
    let mut j: usize = 0;
    while j < n
        invariant
            square_matrix(m@, n as int),
            i < n,
            j <= n,
            forall|k: int| 0 <= k < j ==> !touches(m@, i as int, k),
        decreases n - j,
    {
        let forward = m[i][j];
        let backward = m[j][i];
        if forward || backward {
            proof {
                assert(touches(m@, i as int, j as int));
            }
            return true;
        }
        proof {
            assert(!touches(m@, i as int, j as int));
        }
        j = j + 1;
    }
    false
}

/// A cycle report over the dependency matrix is one over the configurations.
proof fn lemma_report_to_configs(cs: Seq<BuildConfig>, m: Seq<Vec<bool>>, rest: Seq<usize>)
    requires
        cs.len() <= usize::MAX,
        is_dependency_matrix(cs, m),
        is_matrix_cycle_report(m, cs.len() as int, rest),
    ensures
        is_cycle_report(cs, rest),
{
    let n = cs.len() as int;
    let o = choose|o: Seq<usize>| is_partial_matrix_order(m, n, rest, o);
    assert forall|a: int, b: int| 0 <= a < b < o.len() implies !#[trigger] depends_on(cs, o[a] as int, o[b] as int) by {
        assert(!m[o[a] as int]@[o[b] as int]);
    }
    assert(is_partial_build_order(cs, rest, o));
    assert forall|a: int|
        #![trigger rest[a]]
        0 <= a < rest.len() implies waits_within(cs, rest, rest[a]) by {
        let w = choose|w: usize| #[trigger] rest.contains(w) && m[rest[a] as int]@[w as int];
        let q = choose|q: int| 0 <= q < rest.len() && rest[q] == w;
        assert(rest[q] == w);
        assert((w as int) < n);
        assert(m[rest[a] as int]@[w as int] == depends_on(cs, rest[a] as int, w as int));
        assert(waits_within(cs, rest, rest[a]));
    }
    assert(exists|o2: Seq<usize>| is_partial_build_order(cs, rest, o2));
    assert forall|a: int| 0 <= a < rest.len() implies (rest[a] as int) < cs.len() by {}
    assert forall|a: int, b: int| 0 <= a < b < rest.len() implies rest[a] < rest[b] by {}
}

/// Splits configurations into those that can be built independently and one
/// group, in dependency order, holding every configuration that takes part
/// in a dependency. Fails when the dependencies form a cycle.
pub fn group_configs_by_dependencies(configs: Vec<BuildConfig>) -> (r: Result<
    (Vec<ConfigWithIndex>, Vec<Vec<ConfigWithIndex>>),
    DependencyError,
>)
    ensures
        r is Ok ==> groups_in_some_order(configs@, r->Ok_0),
        r is Err ==> (match r->Err_0 {
            DependencyError::Cycle(rest) => is_cycle_report(configs@, rest@),
        }) && forall|o: Seq<usize>| !is_build_order(configs@, o),
{
    let ghost cs = configs@;
    let n = configs.len();
    let m = dependency_matrix(&configs);
    proof {
        assert forall|a: int| 0 <= a < n implies !m@[a]@[a] by {
            assert(!depends_on(cs, a, a));
        }
        assert(square_matrix(m@, n as int));
    }
    let sorted = match topological_sort(n, &m) {
        Ok(o) => o,
        Err(rest) => {
            proof {
                assert forall|o: Seq<usize>| !is_build_order(cs, o) by {
                    if is_build_order(cs, o) {
                        assert forall|a: int, b: int| 0 <= a < b < o.len() implies !m@[o[a] as int]@[o[b] as int] by {
                            assert(!depends_on(cs, o[a] as int, o[b] as int));
                        }
                        assert(is_matrix_order(m@, n as int, o));
                    }
                }
                lemma_report_to_configs(cs, m@, rest@);
            }
            return Err(DependencyError::Cycle(rest));
        },
    };
    let ghost o = sorted@;
    proof {
        assert(is_build_order(cs, o)) by {
            assert forall|a: int, b: int| 0 <= a < b < o.len() implies !#[trigger] depends_on(
                cs,
                o[a] as int,
                o[b] as int,
            ) by {
                assert(!m@[o[a] as int]@[o[b] as int]);
            }
        }
    }
    let mut chained: Vec<bool> = Vec::new();
    let mut i: usize = 0;
    while i < n
        invariant
            n == cs.len(),
            is_dependency_matrix(cs, m@),
            square_matrix(m@, n as int),
            i <= n,
            chained@.len() == i,
            forall|a: int| 0 <= a < i ==> chained@[a] == in_dependency_chain(cs, a),
        decreases n - i,
    {
        let c = chain_member(&m, n, i);
        proof {
            if c {
                let j = choose|j: int| 0 <= j < n && touches(m@, i as int, j);
                assert(m@[i as int]@[j] == depends_on(cs, i as int, j));
                assert(m@[j]@[i as int] == depends_on(cs, j, i as int));
                assert(depends_on(cs, i as int, j) || depends_on(cs, j, i as int));
            } else {
                assert forall|j: int| !(depends_on(cs, i as int, j) || depends_on(cs, j, i as int)) by {
                    if 0 <= j < n {
                        assert(!touches(m@, i as int, j));
                        assert(m@[i as int]@[j] == depends_on(cs, i as int, j));
                        assert(m@[j]@[i as int] == depends_on(cs, j, i as int));
                    }
                }
            }
        }
        chained.push(c);
        i = i + 1;
    }
    let mut slots: Vec<Option<BuildConfig>> = Vec::new();
    let mut rest = configs;
    let mut k: usize = 0;
    while k < n
        invariant
            n == cs.len(),
            k <= n,
            rest@ == cs.subrange(k as int, n as int),
            slots@.len() == k,
            forall|a: int| 0 <= a < k ==> slots@[a] == Some(cs[a]),
        decreases n - k,
    {
        let c = rest.remove(0);
        slots.push(Some(c));
        k = k + 1;
        proof {
            assert(rest@ =~= cs.subrange(k as int, n as int));
        }
    }
    let mut independent: Vec<ConfigWithIndex> = Vec::new();
    let mut group: Vec<ConfigWithIndex> = Vec::new();
    let mut t: usize = 0;
    proof {
        assert forall|a: int| 0 <= a < o.len() implies slots@[o[a] as int] == Some(cs[o[a] as int]) by {
            assert((o[a] as int) < n);
        }
    }
    while t < sorted.len()
        invariant
            n == cs.len(),
            is_build_order(cs, o),
            sorted@ == o,
            t <= o.len(),
            chained@.len() == n,
            forall|a: int| 0 <= a < n ==> chained@[a] == in_dependency_chain(cs, a),
            slots@.len() == n,
            forall|a: int| t <= a < o.len() ==> slots@[o[a] as int] == Some(cs[o[a] as int]),
            indices_of(independent@) == select_by_chain(cs, o.take(t as int), false),
            indices_of(group@) == select_by_chain(cs, o.take(t as int), true),
            carries_configs(cs, independent@),
            carries_configs(cs, group@),
        decreases o.len() - t,
    {
        let idx = sorted[t];
        let slot = slots.remove(idx);
        slots.insert(idx, None);
        proof {
            assert(o.take(t as int + 1).drop_last() =~= o.take(t as int));
            assert(o.take(t as int + 1).last() == idx);
            assert forall|a: int| t + 1 <= a < o.len() implies slots@[o[a] as int] == Some(cs[o[a] as int]) by {
                assert(o[a] != o[t as int]);
            }
        }
        if let Some(config) = slot {
            let entry = ConfigWithIndex { index: idx, config };
            if chained[idx] {
                let ghost g0 = group@;
                group.push(entry);
                proof {
                    assert(indices_of(group@) =~= indices_of(g0).push(idx));
                }
            } else {
                let ghost i0 = independent@;
                independent.push(entry);
                proof {
                    assert(indices_of(independent@) =~= indices_of(i0).push(idx));
                }
            }
        }
        t = t + 1;
    }
    proof {
        assert(o.take(o.len() as int) =~= o);
    }
    let ghost g = group@;
    let mut groups: Vec<Vec<ConfigWithIndex>> = Vec::new();
    if group.len() > 0 {
        groups.push(group);
    }
    proof {
        assert(indices_of(g).len() == g.len());
        if g.len() > 0 {
            assert(groups@[0]@ == g);
        }
        assert(is_grouping(cs, o, independent@, groups@));
    }
    let result = (independent, groups);
    proof {
        assert(is_grouping(cs, o, result.0@, result.1@));
        assert(groups_in_some_order(cs, result));
    }
    Ok(result)
}


/// Two different configurations reference `d`.
pub open spec fn shared_dir(cs: Seq<BuildConfig>, d: Seq<char>) -> bool {
    exists|i1: int, i2: int|
        0 <= i1 < cs.len() && 0 <= i2 < cs.len() && i1 != i2 && references_dir(cs[i1], d)
            && references_dir(cs[i2], d)
}

/// `v` lists, ascending, exactly the configurations that reference `d`.
pub open spec fn is_reference_list(cs: Seq<BuildConfig>, d: Seq<char>, v: Seq<usize>) -> bool {
    &&& forall|a: int, b: int| 0 <= a < b < v.len() ==> v[a] < v[b]
    &&& forall|a: int| 0 <= a < v.len() ==> (v[a] as int) < cs.len() && references_dir(cs[v[a] as int], d)
    &&& forall|i: usize| (i as int) < cs.len() && references_dir(cs[i as int], d) ==> #[trigger] v.contains(i)
}

/// Some configuration uses a directory equal to `d` as its main directory.
pub open spec fn is_some_main_dir(cs: Seq<BuildConfig>, d: Seq<char>) -> bool {
    exists|j: int| 0 <= j < cs.len() && norm_path(#[trigger] cs[j].resource_dir@) == norm_path(d)
}

/// The common dependencies of `cs` are exactly `r`: one entry per shared
/// directory (up to separator normalization), each listing the referencing
/// configurations and naming the directory, when some configuration has it
/// as its main directory, in that configuration's form.
pub open spec fn is_common_dependency_list(cs: Seq<BuildConfig>, r: Seq<CommonDependency>) -> bool {
    &&& forall|a: int| 0 <= a < r.len() ==> entry_ok(cs, #[trigger] r[a])
    &&& forall|a: int, b: int|
        0 <= a < b < r.len() ==> norm_path(r[a].resource_dir@) != norm_path(r[b].resource_dir@)
    &&& forall|i: int, d: Seq<char>|
        0 <= i < cs.len() && references_dir(cs[i], d) && shared_dir(cs, d) ==> has_entry(r, d)
}

/// The configurations that reference `d`, ascending.
fn referencing_configs(configs: &Vec<BuildConfig>, d: &String) -> (r: Vec<usize>)
    ensures
        is_reference_list(configs@, d@, r@),
        (r@.len() >= 2) == shared_dir(configs@, d@),
{
    let mut r: Vec<usize> = Vec::new();
    let mut i: usize = 0;
    while i < configs.len()
        invariant
            i <= configs@.len(),
            forall|a: int, b: int| 0 <= a < b < r@.len() ==> r@[a] < r@[b],
            forall|a: int| 0 <= a < r@.len() ==> (r@[a] as int) < i && references_dir(configs@[r@[a] as int], d@),
            forall|q: usize| (q as int) < i && references_dir(configs@[q as int], d@) ==> #[trigger] r@.contains(q),
        decreases configs@.len() - i,
    {
        if config_references(&configs[i], d) {
            let ghost r0 = r@;
            r.push(i);
            proof {
                assert forall|q: usize| (q as int) < i + 1 && references_dir(configs@[q as int], d@) implies #[trigger] r@.contains(q) by {
                    if q == i {
                        assert(r@[r0.len() as int] == i);
                    } else {
                        assert(r0.contains(q));
                        let p = choose|p: int| 0 <= p < r0.len() && r0[p] == q;
                        assert(r@[p] == q);
                    }
                }
            }
        } else {
            proof {
                assert forall|q: usize| (q as int) < i + 1 && references_dir(configs@[q as int], d@) implies #[trigger] r@.contains(q) by {
                    assert(q != i);
                }
            }
        }
        i = i + 1;
    }
    proof {
        let cs = configs@;
        if r@.len() >= 2 {
            assert(r@[0] < r@[1]);
            assert(references_dir(cs[r@[0] as int], d@) && references_dir(cs[r@[1] as int], d@));
        }
        if shared_dir(cs, d@) {
            let (i1, i2) = choose|i1: int, i2: int|
                0 <= i1 < cs.len() && 0 <= i2 < cs.len() && i1 != i2 && references_dir(cs[i1], d@)
                    && references_dir(cs[i2], d@);
            assert(r@.contains(i1 as usize));
            assert(r@.contains(i2 as usize));
            let p1 = choose|p: int| 0 <= p < r@.len() && r@[p] == i1 as usize;
            let p2 = choose|p: int| 0 <= p < r@.len() && r@[p] == i2 as usize;
            assert(p1 != p2);
        }
    }
    r
}

/// The form in which a shared directory is reported: the main directory of
/// the first configuration that has it as such, else `d` itself.
fn reported_dir(configs: &Vec<BuildConfig>, d: &String) -> (r: String)
    ensures
        norm_path(r@) == norm_path(d@),
        is_some_main_dir(configs@, d@) ==> exists|j: int|
            0 <= j < configs@.len() && configs@[j].resource_dir@ == r@,
{
    let mut j: usize = 0;
    while j < configs.len()
        invariant
            j <= configs@.len(),
            forall|q: int| 0 <= q < j ==> norm_path(#[trigger] configs@[q].resource_dir@) != norm_path(d@),
        decreases configs@.len() - j,
    {
        if same_path(&configs[j].resource_dir, d) {
            return configs[j].resource_dir.clone();
        }
        j = j + 1;
    }
    d.clone()
}

/// Some path of `seen` equals `d` after normalization.
pub open spec fn covered_by(seen: Seq<String>, d: Seq<char>) -> bool {
    exists|q: int| 0 <= q < seen.len() && norm_path(#[trigger] seen[q]@) == norm_path(d)
}

/// Some entry of `r` is for `d`, up to normalization.
pub open spec fn has_entry(r: Seq<CommonDependency>, d: Seq<char>) -> bool {
    exists|a: int| 0 <= a < r.len() && norm_path(#[trigger] r[a].resource_dir@) == norm_path(d)
}

/// Entry `e` lists the configurations referencing its directory, at least two.
pub open spec fn entry_ok(cs: Seq<BuildConfig>, e: CommonDependency) -> bool {
    &&& is_reference_list(cs, e.resource_dir@, e.dependent_configs@)
    &&& e.dependent_configs@.len() >= 2
    &&& is_some_main_dir(cs, e.resource_dir@) ==> exists|j: int|
        0 <= j < cs.len() && cs[j].resource_dir@ == e.resource_dir@
}

proof fn lemma_covered_push(seen: Seq<String>, x: String, d: Seq<char>)
    ensures
        covered_by(seen, d) ==> covered_by(seen.push(x), d),
        norm_path(x@) == norm_path(d) ==> covered_by(seen.push(x), d),
{
    if covered_by(seen, d) {
        let q = choose|q: int| 0 <= q < seen.len() && norm_path(#[trigger] seen[q]@) == norm_path(d);
        assert(seen.push(x)[q] == seen[q]);
    }
    if norm_path(x@) == norm_path(d) {
        assert(seen.push(x)[seen.len() as int] == x);
    }
}

proof fn lemma_has_entry_push(r: Seq<CommonDependency>, x: CommonDependency, d: Seq<char>)
    ensures
        has_entry(r, d) ==> has_entry(r.push(x), d),
        norm_path(x.resource_dir@) == norm_path(d) ==> has_entry(r.push(x), d),
{
    if has_entry(r, d) {
        let a = choose|a: int| 0 <= a < r.len() && norm_path(#[trigger] r[a].resource_dir@) == norm_path(d);
        assert(r.push(x)[a] == r[a]);
    }
    if norm_path(x.resource_dir@) == norm_path(d) {
        assert(r.push(x)[r.len() as int] == x);
    }
}

/// Whether `seen` holds a path equal to `d` after normalization.
fn contains_path(seen: &Vec<String>, d: &String) -> (r: bool)
    ensures
        r == covered_by(seen@, d@),
{
    let mut q: usize = 0;
    while q < seen.len()
        invariant
            q <= seen@.len(),
            forall|p: int| 0 <= p < q ==> norm_path(#[trigger] seen@[p]@) != norm_path(d@),
        decreases seen@.len() - q,
    {
        if same_path(&seen[q], d) {
            proof {
                assert(norm_path(seen@[q as int]@) == norm_path(d@));
            }
            return true;
        }
        q = q + 1;
    }
    false
}

/// `references_dir` only looks at the normalized form of the directory.
proof fn lemma_references_norm(c: BuildConfig, d1: Seq<char>, d2: Seq<char>)
    requires
        norm_path(d1) == norm_path(d2),
    ensures
        references_dir(c, d1) == references_dir(c, d2),
{
}

/// The loop state of the extraction: entries are valid and distinct, every
/// entry's directory has been seen, every seen shared directory has an entry.
pub open spec fn extraction_state(
    cs: Seq<BuildConfig>,
    seen: Seq<String>,
    out: Seq<CommonDependency>,
) -> bool {
    &&& forall|a: int| 0 <= a < out.len() ==> entry_ok(cs, #[trigger] out[a])
    &&& forall|a: int, b: int|
        0 <= a < b < out.len() ==> norm_path(out[a].resource_dir@) != norm_path(out[b].resource_dir@)
    &&& forall|a: int| 0 <= a < out.len() ==> covered_by(seen, (#[trigger] out[a]).resource_dir@)
    &&& forall|q: int| 0 <= q < seen.len() && shared_dir(cs, (#[trigger] seen[q])@) ==> has_entry(out, seen[q]@)
}

/// Visits one additional directory `d`: records a common dependency for it
/// if it is new and shared.
fn visit_dir(
    configs: &Vec<BuildConfig>,
    d: &String,
    seen: &mut Vec<String>,
    out: &mut Vec<CommonDependency>,
)
    requires
        extraction_state(configs@, old(seen)@, old(out)@),
    ensures
        extraction_state(configs@, final(seen)@, final(out)@),
        covered_by(final(seen)@, d@),
        forall|e: Seq<char>| covered_by(old(seen)@, e) ==> covered_by(final(seen)@, e),
{
    let ghost cs = configs@;
    if contains_path(seen, d) {
        return;
    }
    let refs = referencing_configs(configs, d);
    let ghost out0 = out@;
    let ghost seen0 = seen@;
    if refs.len() >= 2 {
        let shown = reported_dir(configs, d);
        proof {
            assert forall|j: int| 0 <= j < cs.len() implies (norm_path(#[trigger] cs[j].resource_dir@)
                == norm_path(shown@)) == (norm_path(cs[j].resource_dir@) == norm_path(d@)) by {}
            assert forall|q: usize| (q as int) < cs.len() implies references_dir(cs[q as int], shown@)
                == references_dir(cs[q as int], d@) by {
                lemma_references_norm(cs[q as int], shown@, d@);
            }
            assert(is_some_main_dir(cs, shown@) == is_some_main_dir(cs, d@));
        }
        out.push(CommonDependency { resource_dir: shown, dependent_configs: refs });
        proof {
            let last = out@.len() - 1;
            assert(entry_ok(cs, out@[last]));
            assert forall|a: int, b: int| 0 <= a < b < out@.len() implies norm_path(out@[a].resource_dir@)
                != norm_path(out@[b].resource_dir@) by {
                if b == last {
                    assert(covered_by(seen0, out0[a].resource_dir@));
                    let q = choose|q: int| 0 <= q < seen0.len() && norm_path(#[trigger] seen0[q]@) == norm_path(out0[a].resource_dir@);
                } else {
                    assert(out@[a] == out0[a] && out@[b] == out0[b]);
                }
            }
        }
    }
    seen.push(d.clone());
    proof {
        assert forall|e: Seq<char>| covered_by(seen0, e) implies covered_by(seen@, e) by {
            lemma_covered_push(seen0, *d, e);
        }
        lemma_covered_push(seen0, *d, d@);
        assert forall|a: int| 0 <= a < out@.len() implies covered_by(seen@, (#[trigger] out@[a]).resource_dir@) by {
            if a < out0.len() {
                assert(out@[a] == out0[a]);
            } else {
                lemma_covered_push(seen0, *d, out@[a].resource_dir@);
            }
        }
        assert forall|a: int| 0 <= a < out@.len() implies entry_ok(cs, #[trigger] out@[a]) by {
            if a < out0.len() {
                assert(out@[a] == out0[a]);
            }
        }
        assert forall|q: int| 0 <= q < seen@.len() && shared_dir(cs, (#[trigger] seen@[q])@) implies has_entry(out@, seen@[q]@) by {
            if q < seen0.len() {
                assert(seen@[q] == seen0[q]);
                if out@.len() > out0.len() {
                    lemma_has_entry_push(out0, out@[out0.len() as int], seen0[q]@);
                    assert(out@ == out0.push(out@[out0.len() as int]));
                }
            } else {
                assert(seen@[q] == *d);
                lemma_has_entry_push(out0, out@[out@.len() - 1], d@);
                assert(out@ == out0.push(out@[out@.len() - 1]));
            }
        }
    }
}

/// Finds the resource directories that two or more configurations list as
/// additional directories, so that each is compiled once and shared.
pub fn extract_common_dependencies(configs: &Vec<BuildConfig>) -> (r: Vec<CommonDependency>)
    ensures
        configs@.len() <= 1 ==> r@.len() == 0,
        is_common_dependency_list(configs@, r@),
{
    let ghost cs = configs@;
    let n = configs.len();
    let mut out: Vec<CommonDependency> = Vec::new();
    if n <= 1 {
        proof {
            assert forall|p: int, d: Seq<char>| 0 <= p < cs.len() && references_dir(cs[p], d) implies !shared_dir(cs, d) by {}
        }
        return out;
    }
    let mut seen: Vec<String> = Vec::new();
    let mut i: usize = 0;
    while i < n
        invariant
            n == cs.len(),
            cs == configs@,
            i <= n,
            extraction_state(cs, seen@, out@),
            forall|p: int, d: Seq<char>| 0 <= p < i && references_dir(cs[p], d) ==> covered_by(seen@, d),
        decreases n - i,
    {
        match &configs[i].additional_resource_dirs {
            None => {},
            Some(dirs) => {
                let mut k: usize = 0;
                while k < dirs.len()
                    invariant
                        n == cs.len(),
                        cs == configs@,
                        i < n,
                        cs[i as int].additional_resource_dirs == Some(*dirs),
                        k <= dirs@.len(),
                        extraction_state(cs, seen@, out@),
                        forall|p: int, d: Seq<char>| 0 <= p < i && references_dir(cs[p], d) ==> covered_by(seen@, d),
                        forall|kk: int| 0 <= kk < k ==> covered_by(seen@, (#[trigger] dirs@[kk])@),
                    decreases dirs@.len() - k,
                {
                    visit_dir(configs, &dirs[k], &mut seen, &mut out);
                    k = k + 1;
                }
                proof {
                    assert forall|dd: Seq<char>| references_dir(cs[i as int], dd) implies covered_by(seen@, dd) by {
                        let kk = choose|kk: int| 0 <= kk < dirs@.len() && norm_path(#[trigger] dirs@[kk]@) == norm_path(dd);
                        assert(covered_by(seen@, dirs@[kk]@));
                    }
                }
            },
        }
        i = i + 1;
    }
    proof {
        assert forall|p: int, d: Seq<char>|
            0 <= p < cs.len() && references_dir(cs[p], d) && shared_dir(cs, d) implies has_entry(out@, d) by {
            assert(covered_by(seen@, d));
            let q = choose|q: int| 0 <= q < seen@.len() && norm_path(#[trigger] seen@[q]@) == norm_path(d);
            assert(shared_dir(cs, seen@[q]@)) by {
                let (i1, i2) = choose|i1: int, i2: int|
                    0 <= i1 < cs.len() && 0 <= i2 < cs.len() && i1 != i2 && references_dir(cs[i1], d)
                        && references_dir(cs[i2], d);
                lemma_references_norm(cs[i1], d, seen@[q]@);
                lemma_references_norm(cs[i2], d, seen@[q]@);
            }
            let a = choose|a: int| 0 <= a < out@.len() && norm_path(#[trigger] out@[a].resource_dir@) == norm_path(seen@[q]@);
        }
    }
    out
}


proof fn lemma_select_without_chains(cs: Seq<BuildConfig>, o: Seq<usize>)
    requires
        forall|i: int, j: int| !depends_on(cs, i, j),
    ensures
        select_by_chain(cs, o, false) == o,
        select_by_chain(cs, o, true) == Seq::<usize>::empty(),
    decreases o.len(),
{
    if o.len() > 0 {
        lemma_select_without_chains(cs, o.drop_last());
        assert(!in_dependency_chain(cs, o.last() as int));
        assert(o.drop_last().push(o.last()) =~= o);
    }
}

/// When no configuration depends on another, a build order exists (so
/// grouping succeeds), and every grouping puts all configurations, in build
/// order, among the independent ones and forms no dependent group.
pub proof fn lemma_no_dependencies_all_independent(cs: Seq<BuildConfig>)
    requires
        cs.len() <= usize::MAX,
        forall|i: int, j: int| !depends_on(cs, i, j),
    ensures
        exists|o: Seq<usize>| is_build_order(cs, o),
        forall|o: Seq<usize>, ind: Seq<ConfigWithIndex>, groups: Seq<Vec<ConfigWithIndex>>|
            #[trigger] is_grouping(cs, o, ind, groups) ==> indices_of(ind) == o && groups.len() == 0,
{
    let o = Seq::new(cs.len(), |i: int| i as usize);
    assert forall|v: usize| (v as int) < cs.len() implies #[trigger] o.contains(v) by {
        assert(o[v as int] == v);
    }
    assert(is_build_order(cs, o));
    assert forall|o2: Seq<usize>, ind: Seq<ConfigWithIndex>, groups: Seq<Vec<ConfigWithIndex>>|
        #[trigger] is_grouping(cs, o2, ind, groups) implies indices_of(ind) == o2 && groups.len() == 0 by {
        lemma_select_without_chains(cs, o2);
    }
}

proof fn lemma_build_order_position(cs: Seq<BuildConfig>, o: Seq<usize>, v: int) -> (p: int)
    requires
        is_build_order(cs, o),
        0 <= v < cs.len(),
        cs.len() <= usize::MAX,
    ensures
        0 <= p < o.len(),
        o[p] as int == v,
{
    assert(o.contains(v as usize));
    choose|p: int| 0 <= p < o.len() && o[p] == v as usize
}

/// Two configurations that depend on each other admit no build order, so
/// grouping fails with a cycle error.
pub proof fn lemma_cycle_has_no_order(cs: Seq<BuildConfig>, a: int, b: int)
    requires
        cs.len() <= usize::MAX,
        depends_on(cs, a, b),
        depends_on(cs, b, a),
    ensures
        forall|o: Seq<usize>| !is_build_order(cs, o),
{
    assert forall|o: Seq<usize>| !is_build_order(cs, o) by {
        if is_build_order(cs, o) {
            let pa = lemma_build_order_position(cs, o, a);
            let pb = lemma_build_order_position(cs, o, b);
            if pa < pb {
                assert(!depends_on(cs, o[pa] as int, o[pb] as int));
            } else {
                assert(!depends_on(cs, o[pb] as int, o[pa] as int));
            }
        }
    }
}

proof fn lemma_select_contains(cs: Seq<BuildConfig>, o: Seq<usize>, x: int)
    requires
        0 <= x < o.len(),
        in_dependency_chain(cs, o[x] as int),
    ensures
        select_by_chain(cs, o, true).contains(o[x]),
    decreases o.len(),
{
    if x == o.len() - 1 {
        let s = select_by_chain(cs, o.drop_last(), true);
        assert(select_by_chain(cs, o, true)[s.len() as int] == o[x]);
    } else {
        lemma_select_contains(cs, o.drop_last(), x);
        let s = select_by_chain(cs, o.drop_last(), true);
        let p = choose|p: int| 0 <= p < s.len() && s[p] == o[x];
        assert(select_by_chain(cs, o, true)[p] == o[x]);
    }
}

proof fn lemma_select_keeps_order(cs: Seq<BuildConfig>, o: Seq<usize>, x: int, y: int)
    requires
        0 <= x < y < o.len(),
        in_dependency_chain(cs, o[x] as int),
        in_dependency_chain(cs, o[y] as int),
    ensures
        exists|p: int, q: int|
            0 <= p < q < select_by_chain(cs, o, true).len() && select_by_chain(cs, o, true)[p] == o[x]
                && select_by_chain(cs, o, true)[q] == o[y],
    decreases o.len(),
{
    let s = select_by_chain(cs, o.drop_last(), true);
    let full = select_by_chain(cs, o, true);
    if y == o.len() - 1 {
        lemma_select_contains(cs, o.drop_last(), x);
        let p = choose|p: int| 0 <= p < s.len() && s[p] == o[x];
        assert(full[p] == o[x] && full[s.len() as int] == o[y]);
    } else {
        lemma_select_keeps_order(cs, o.drop_last(), x, y);
        let (p, q) = choose|p: int, q: int|
            0 <= p < q < s.len() && s[p] == o.drop_last()[x] && s[q] == o.drop_last()[y];
        assert(full[p] == o[x] && full[q] == o[y]);
    }
}

/// For a chain where `b` depends on `a` and `c` depends on `b`, every
/// grouping forms one dependent group in which `a` comes before `b` and `b`
/// before `c`.
pub proof fn lemma_chain_order(
    cs: Seq<BuildConfig>,
    a: int,
    b: int,
    c: int,
    o: Seq<usize>,
    ind: Seq<ConfigWithIndex>,
    groups: Seq<Vec<ConfigWithIndex>>,
)
    requires
        cs.len() <= usize::MAX,
        depends_on(cs, b, a),
        depends_on(cs, c, b),
        is_grouping(cs, o, ind, groups),
    ensures
        groups.len() == 1,
        exists|pa: int, pb: int, pc: int|
            0 <= pa < pb < pc < groups[0]@.len() && groups[0]@[pa].index == a && groups[0]@[pb].index
                == b && groups[0]@[pc].index == c,
{
    let xa = lemma_build_order_position(cs, o, a);
    let xb = lemma_build_order_position(cs, o, b);
    let xc = lemma_build_order_position(cs, o, c);
    if xb < xa {
        assert(!depends_on(cs, o[xb] as int, o[xa] as int));
    }
    if xc < xb {
        assert(!depends_on(cs, o[xc] as int, o[xb] as int));
    }
    assert(xa != xb && xb != xc);
    assert(in_dependency_chain(cs, a) && in_dependency_chain(cs, b) && in_dependency_chain(cs, c));
    lemma_select_contains(cs, o, xa);
    let sel = select_by_chain(cs, o, true);
    assert(sel.len() > 0);
    let g = groups[0]@;
    assert(indices_of(g) == sel);
    lemma_select_keeps_order(cs, o, xa, xb);
    lemma_select_keeps_order(cs, o, xb, xc);
    let (p1, q1) = choose|p: int, q: int| 0 <= p < q < sel.len() && sel[p] == o[xa] && sel[q] == o[xb];
    let (p2, q2) = choose|p: int, q: int| 0 <= p < q < sel.len() && sel[p] == o[xb] && sel[q] == o[xc];
    assert(sel.no_duplicates()) by {
        lemma_select_no_duplicates(cs, o);
    }
    assert(q1 == p2);
    assert(g[p1].index == sel[p1] && g[q1].index == sel[q1] && g[q2].index == sel[q2]);
}

proof fn lemma_select_no_duplicates(cs: Seq<BuildConfig>, o: Seq<usize>)
    requires
        o.no_duplicates(),
    ensures
        select_by_chain(cs, o, true).no_duplicates(),
        forall|v: usize| #[trigger] select_by_chain(cs, o, true).contains(v) ==> o.contains(v),
    decreases o.len(),
{
    if o.len() > 0 {
        let t = o.drop_last();
        assert(t.no_duplicates()) by {
            assert forall|i: int, j: int| 0 <= i < t.len() && 0 <= j < t.len() && i != j implies t[i] != t[j] by {
                assert(t[i] == o[i] && t[j] == o[j]);
            }
        }
        lemma_select_no_duplicates(cs, t);
        let s = select_by_chain(cs, t, true);
        let full = select_by_chain(cs, o, true);
        if in_dependency_chain(cs, o.last() as int) {
            assert(!s.contains(o.last())) by {
                if s.contains(o.last()) {
                    assert(t.contains(o.last()));
                    let k = choose|k: int| 0 <= k < t.len() && t[k] == o.last();
                    assert(o[k] == o[o.len() - 1]);
                }
            }
            assert forall|i: int, j: int| 0 <= i < full.len() && 0 <= j < full.len() && i != j implies full[i] != full[j] by {
                if i == s.len() as int {
                    assert(s.contains(full[j]) ==> true);
                    if full[i] == full[j] {
                        assert(s[j] == o.last());
                        assert(s.contains(o.last()));
                    }
                } else if j == s.len() as int {
                    if full[i] == full[j] {
                        assert(s[i] == o.last());
                        assert(s.contains(o.last()));
                    }
                } else {
                    assert(full[i] == s[i] && full[j] == s[j]);
                }
            }
        }
        assert forall|v: usize| full.contains(v) implies o.contains(v) by {
            let k = choose|k: int| 0 <= k < full.len() && full[k] == v;
            if k < s.len() {
                assert(s[k] == v);
                assert(s.contains(v));
                assert(t.contains(v));
                let m = choose|m: int| 0 <= m < t.len() && t[m] == v;
                assert(o[m] == v);
            } else {
                assert(o[o.len() - 1] == v);
            }
        }
    }
}

/// When exactly two configurations `i1 < i2` reference a directory `d` and
/// no other directory is shared, the common dependencies are exactly one
/// entry for `d` listing `i1` and `i2`.
pub proof fn lemma_single_shared_directory(
    cs: Seq<BuildConfig>,
    d: Seq<char>,
    i1: int,
    i2: int,
    r: Seq<CommonDependency>,
)
    requires
        cs.len() <= usize::MAX,
        0 <= i1 < i2 < cs.len(),
        references_dir(cs[i1], d),
        references_dir(cs[i2], d),
        forall|i: int| 0 <= i < cs.len() && i != i1 && i != i2 ==> !references_dir(cs[i], d),
        forall|e: Seq<char>| shared_dir(cs, e) ==> norm_path(e) == norm_path(d),
        is_common_dependency_list(cs, r),
    ensures
        r.len() == 1,
        norm_path(r[0].resource_dir@) == norm_path(d),
        r[0].dependent_configs@ == seq![i1 as usize, i2 as usize],
{
    assert(shared_dir(cs, d));
    assert(has_entry(r, d));
    let a = choose|a: int| 0 <= a < r.len() && norm_path(#[trigger] r[a].resource_dir@) == norm_path(d);
    assert forall|b: int| 0 <= b < r.len() implies norm_path(r[b].resource_dir@) == norm_path(d) by {
        assert(entry_ok(cs, r[b]));
        let v = r[b].dependent_configs@;
        assert(v[0] < v[1]);
        assert(shared_dir(cs, r[b].resource_dir@));
    }
    if r.len() > 1 {
        assert(norm_path(r[0].resource_dir@) != norm_path(r[1].resource_dir@));
    }
    assert(entry_ok(cs, r[0]));
    let v = r[0].dependent_configs@;
    let rd = r[0].resource_dir@;
    assert forall|i: int| 0 <= i < cs.len() implies references_dir(cs[i], rd) == references_dir(cs[i], d) by {
        lemma_references_norm(cs[i], rd, d);
    }
    assert(v.contains(i1 as usize));
    assert(v.contains(i2 as usize));
    assert forall|k: int| 0 <= k < v.len() implies v[k] == i1 as usize || v[k] == i2 as usize by {
        assert(references_dir(cs[v[k] as int], rd));
    }
    if v.len() > 2 {
        assert(v[0] < v[1] && v[1] < v[2]);
    }
    assert(v[0] < v[1]);
    assert(v =~= seq![i1 as usize, i2 as usize]);
}

} // verus!
