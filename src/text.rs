use vstd::prelude::*;
use vstd::string::*;

verus! {

/// The decimal digit character for `d < 10`.
pub open spec fn digit_char(d: nat) -> char {
    if d == 0 {
        '0'
    } else if d == 1 {
        '1'
    } else if d == 2 {
        '2'
    } else if d == 3 {
        '3'
    } else if d == 4 {
        '4'
    } else if d == 5 {
        '5'
    } else if d == 6 {
        '6'
    } else if d == 7 {
        '7'
    } else if d == 8 {
        '8'
    } else {
        '9'
    }
}

/// Decimal representation of `n`, without leading zeros.
pub open spec fn decimal(n: nat) -> Seq<char>
    decreases n,
{
    if n < 10 {
        seq![digit_char(n)]
    } else {
        decimal(n / 10) + seq![digit_char(n % 10)]
    }
}

fn digit_str(d: u64) -> (r: &'static str)
    requires
        d < 10,
    ensures
        r@ == seq![digit_char(d as nat)],
{
    if d == 0 {
        proof { reveal_strlit("0"); }
        "0"
    } else if d == 1 {
        proof { reveal_strlit("1"); }
        "1"
    } else if d == 2 {
        proof { reveal_strlit("2"); }
        "2"
    } else if d == 3 {
        proof { reveal_strlit("3"); }
        "3"
    } else if d == 4 {
        proof { reveal_strlit("4"); }
        "4"
    } else if d == 5 {
        proof { reveal_strlit("5"); }
        "5"
    } else if d == 6 {
        proof { reveal_strlit("6"); }
        "6"
    } else if d == 7 {
        proof { reveal_strlit("7"); }
        "7"
    } else if d == 8 {
        proof { reveal_strlit("8"); }
        "8"
    } else {
        proof { reveal_strlit("9"); }
        "9"
    }
}

/// `n` written in decimal.
pub fn decimal_string(n: u64) -> (r: String)
    ensures
        r@ == decimal(n as nat),
    decreases n,
{
    if n < 10 {
        String::from_str(digit_str(n))
    } else {
        let high = decimal_string(n / 10);
        high.concat(digit_str(n % 10))
    }
}

/// Index of the last `c` in `s`, or -1.
pub open spec fn last_index_of(s: Seq<char>, c: char) -> int
    decreases s.len(),
{
    if s.len() == 0 {
        -1
    } else if s.last() == c {
        s.len() - 1
    } else {
        last_index_of(s.drop_last(), c)
    }
}

proof fn lemma_last_index_of(s: Seq<char>, c: char)
    ensures
        -1 <= last_index_of(s, c) < s.len(),
        last_index_of(s, c) >= 0 ==> s[last_index_of(s, c)] == c,
        forall|k: int| last_index_of(s, c) < k < s.len() ==> s[k] != c,
    decreases s.len(),
{
    if s.len() > 0 && s.last() != c {
        lemma_last_index_of(s.drop_last(), c);
        assert forall|k: int| last_index_of(s, c) < k < s.len() implies s[k] != c by {
            if k < s.len() - 1 {
                assert(s.drop_last()[k] == s[k]);
            }
        }
    }
}

/// The position of the last `c` in `s`, if any.
pub fn find_last(s: &str, c: char) -> (r: Option<usize>)
    ensures
        match r {
            Some(i) => i as int == last_index_of(s@, c),
            None => last_index_of(s@, c) == -1,
        },
{
    let n = s.unicode_len();
    let mut i = n;
    proof {
        assert(s@.take(n as int) =~= s@);
    }
    while i > 0 && s.get_char(i - 1) != c
        invariant
            i <= n,
            n == s@.len(),
            last_index_of(s@, c) == last_index_of(s@.take(i as int), c),
        decreases i,
    {
        proof {
            assert(s@.take(i as int).drop_last() =~= s@.take(i as int - 1));
        }
        i = i - 1;
    }
    proof {
        if i > 0 {
            assert(s@.take(i as int).last() == s@[i as int - 1]);
        }
    }
    if i == 0 {
        None
    } else {
        Some(i - 1)
    }
}

/// `prefix` is a prefix of `s`.
pub open spec fn has_prefix(s: Seq<char>, prefix: Seq<char>) -> bool {
    prefix.len() <= s.len() && s.take(prefix.len() as int) == prefix
}

/// Whether `s` starts with `prefix`.
pub fn starts_with(s: &str, prefix: &str) -> (r: bool)
    ensures
        r == has_prefix(s@, prefix@),
{
    let n = s.unicode_len();
    let m = prefix.unicode_len();
    if m > n {
        return false;
    }
    let mut i: usize = 0;
    while i < m
        invariant
            m <= n,
            n == s@.len(),
            m == prefix@.len(),
            i <= m,
            forall|k: int| 0 <= k < i ==> s@[k] == prefix@[k],
        decreases m - i,
    {
        if s.get_char(i) != prefix.get_char(i) {
            proof {
                assert(s@.take(m as int)[i as int] != prefix@[i as int]);
            }
            return false;
        }
        i = i + 1;
    }
    proof {
        assert(s@.take(m as int) =~= prefix@);
    }
    true
}

/// The last component of a `/`-separated path.
pub open spec fn file_name_of(s: Seq<char>) -> Seq<char> {
    s.skip(last_index_of(s, '/') + 1)
}

/// Everything before the last `/`, if there is one.
pub open spec fn parent_of(s: Seq<char>) -> Option<Seq<char>> {
    if last_index_of(s, '/') >= 0 {
        Some(s.take(last_index_of(s, '/')))
    } else {
        None
    }
}

/// A file name without its last extension; a name whose only dot is its
/// first character keeps it.
pub open spec fn stem_of(name: Seq<char>) -> Seq<char> {
    if last_index_of(name, '.') > 0 {
        name.take(last_index_of(name, '.'))
    } else {
        name
    }
}

/// The last component of a `/`-separated path.
pub fn file_name(s: &str) -> (r: &str)
    ensures
        r@ == file_name_of(s@),
{
    proof {
        lemma_last_index_of(s@, '/');
    }
    let n = s.unicode_len();
    match find_last(s, '/') {
        Some(i) => s.substring_char(i + 1, n),
        None => {
            proof {
                assert(s@.skip(0) =~= s@);
            }
            s
        },
    }
}

/// Everything before the last `/`, if there is one.
pub fn parent(s: &str) -> (r: Option<&str>)
    ensures
        match r {
            Some(p) => parent_of(s@) == Some(p@),
            None => parent_of(s@) is None,
        },
{
    proof {
        lemma_last_index_of(s@, '/');
    }
    match find_last(s, '/') {
        Some(i) => Some(s.substring_char(0, i)),
        None => None,
    }
}

/// A file name without its last extension.
pub fn stem(name: &str) -> (r: &str)
    ensures
        r@ == stem_of(name@),
{
    proof {
        lemma_last_index_of(name@, '.');
    }
    match find_last(name, '.') {
        Some(i) => {
            if i > 0 {
                name.substring_char(0, i)
            } else {
                name
            }
        },
        None => name,
    }
}


/// `c` with a backslash turned into a forward slash.
pub open spec fn slash_char(c: char) -> char {
    if c == '\\' {
        '/'
    } else {
        c
    }
}

/// `c` with a backslash turned into a forward slash.
pub fn to_slash(c: char) -> (r: char)
    ensures
        r == slash_char(c),
{
    if c == '\\' {
        '/'
    } else {
        c
    }
}

/// `s` with every backslash turned into a forward slash.
pub open spec fn forward_slashes(s: Seq<char>) -> Seq<char> {
    s.map_values(|c: char| slash_char(c))
}

/// `s` with every backslash turned into a forward slash.
pub fn to_forward_slashes(s: &str) -> (r: String)
    ensures
        r@ == forward_slashes(s@),
{
    let n = s.unicode_len();
    let mut out = String::new();
    let mut i: usize = 0;
    while i < n
        invariant
            n == s@.len(),
            i <= n,
            out@ == forward_slashes(s@.take(i as int)),
        decreases n - i,
    {
        let c = s.get_char(i);
        let ghost before = out@;
        if c == '\\' {
            out.append("/");
            proof {
                reveal_strlit("/");
            }
        } else {
            out.append(s.substring_char(i, i + 1));
        }
        i = i + 1;
        proof {
            assert(forward_slashes(s@.take(i as int)) =~= forward_slashes(s@.take(i as int - 1)).push(slash_char(c)));
            assert(out@ =~= before.push(slash_char(c)));
        }
    }
    proof {
        assert(s@.take(n as int) =~= s@);
    }
    out
}


/// `needle` occurs in `s` at position `k` or later.
pub open spec fn occurs_from(s: Seq<char>, needle: Seq<char>, k: int) -> bool
    decreases s.len() + 1 - k,
{
    if k < 0 || k + needle.len() > s.len() {
        false
    } else if s.subrange(k, k + needle.len()) == needle {
        true
    } else {
        occurs_from(s, needle, k + 1)
    }
}

/// Whether `needle` occurs in `s`.
pub fn contains_text(s: &str, needle: &str) -> (r: bool)
    ensures
        r == occurs_from(s@, needle@, 0),
{
    let n = s.unicode_len();
    let m = needle.unicode_len();
    if m == 0 {
        proof {
            assert(s@.subrange(0, 0) =~= needle@);
        }
        return true;
    }
    if m > n {
        return false;
    }
    let mut k: usize = 0;
    while k <= n - m
        invariant
            n == s@.len(),
            m == needle@.len(),
            1 <= m <= n,
            occurs_from(s@, needle@, 0) == occurs_from(s@, needle@, k as int),
        decreases n + 1 - k,
    {
        let window = s.substring_char(k, k + m);
        if starts_with(window, needle) {
            proof {
                assert(window@.take(m as int) =~= window@);
            }
            return true;
        }
        proof {
            if window@ == needle@ {
                assert(window@.take(m as int) =~= window@);
            }
        }
        k = k + 1;
    }
    false
}

} // verus!
