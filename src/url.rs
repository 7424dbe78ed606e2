use vstd::prelude::*;
use vstd::string::StrSliceExecFns;

verus! {

/// Index just past the last `/` among the first `i` characters, or 0 when there is none.
pub open spec fn after_last_slash(s: Seq<char>, i: int) -> int
    decreases i,
{
    if i <= 0 {
        0
    } else if s[i - 1] == '/' {
        i
    } else {
        after_last_slash(s, i - 1)
    }
}

/// Index of the first `?` at or after `j`, or the length when there is none.
pub open spec fn query_start(s: Seq<char>, j: int) -> int
    decreases s.len() - j,
{
    if j >= s.len() {
        s.len() as int
    } else if s[j] == '?' {
        j
    } else {
        query_start(s, j + 1)
    }
}

/// The last `/`-separated segment of a URL, cut before its first `?`.
pub open spec fn filename_of(s: Seq<char>) -> Seq<char> {
    let a = after_last_slash(s, s.len() as int);
    s.subrange(a, query_start(s, a))
}

proof fn lemma_after_last_slash_bounds(s: Seq<char>, i: int)
    requires
        0 <= i <= s.len(),
    ensures
        0 <= after_last_slash(s, i) <= i,
    decreases i,
{
    if i > 0 && s[i - 1] != '/' {
        lemma_after_last_slash_bounds(s, i - 1);
    }
}

proof fn lemma_query_start_bounds(s: Seq<char>, j: int)
    requires
        0 <= j <= s.len(),
    ensures
        j <= query_start(s, j) <= s.len(),
    decreases s.len() - j,
{
    if j < s.len() && s[j] != '?' {
        lemma_query_start_bounds(s, j + 1);
    }
}

/// The file name that a URL points at: its last path segment without the query.
pub fn get_filename_from_url(url: &str) -> (r: &str)
    ensures
        r@ == filename_of(url@),
{
    let n = url.unicode_len();
    let mut i: usize = n;
    while i > 0 && url.get_char(i - 1) != '/'
        invariant
            n == url@.len(),
            i <= n,
            after_last_slash(url@, n as int) == after_last_slash(url@, i as int),
        decreases i,
    {
        i = i - 1;
    }
    let a = i;
    proof {
        lemma_after_last_slash_bounds(url@, a as int);
        assert(after_last_slash(url@, a as int) == a as int);
    }
    let mut j: usize = a;
    while j < n && url.get_char(j) != '?'
        invariant
            n == url@.len(),
            a <= j <= n,
            query_start(url@, a as int) == query_start(url@, j as int),
        decreases n - j,
    {
        j = j + 1;
    }
    url.substring_char(a, j)
}

} // verus!
