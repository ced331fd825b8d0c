//! Selection of candidate paths by a substring pattern.
use vstd::prelude::*;
use vstd::string::StrSliceExecFns;

verus! {

/// `p` occurs in `s` as a contiguous run of characters.
pub open spec fn has_substring(s: Seq<char>, p: Seq<char>) -> bool {
    exists|i: int| 0 <= i && i + p.len() <= s.len() && #[trigger] s.subrange(i, i + p.len()) == p
}

/// The paths of `files` that contain `pattern`, in the order given.
pub open spec fn matching(files: Seq<Seq<char>>, pattern: Seq<char>) -> Seq<Seq<char>>
    decreases files.len(),
{
    if files.len() == 0 {
        Seq::empty()
    } else {
        let rest = matching(files.drop_last(), pattern);
        if has_substring(files.last(), pattern) {
            rest.push(files.last())
        } else {
            rest
        }
    }
}

fn chars_of(s: &str) -> (r: Vec<char>)
    ensures
        r@ == s@,
{
    let n = s.unicode_len();
    let mut r: Vec<char> = Vec::new();
    let mut i: usize = 0;
    while i < n
        invariant
            n == s@.len(),
            i <= n,
            r@ == s@.subrange(0, i as int),
        decreases n - i,
    {
        r.push(s.get_char(i));
        i += 1;
    }
    proof {
        assert(r@ =~= s@);
    }
    r
}

fn occurs_at(s: &Vec<char>, p: &Vec<char>, at: usize) -> (r: bool)
    requires
        at + p@.len() <= s@.len(),
    ensures
        r == (s@.subrange(at as int, at + p@.len()) == p@),
{
    let n = s.len();
    let mut k: usize = 0;
    while k < p.len()
        invariant
            at + p@.len() <= s@.len(),
            n == s@.len(),
            k <= p@.len(),
            forall|j: int| 0 <= j < k ==> s@[at + j] == p@[j],
        decreases p@.len() - k,
    {
        if s[at + k] != p[k] {
            proof {
                assert(s@.subrange(at as int, at + p@.len())[k as int] != p@[k as int]);
            }
            return false;
        }
        k += 1;
    }
    proof {
        assert(s@.subrange(at as int, at + p@.len()) =~= p@);
    }
    true
}

fn contains_chars(s: &Vec<char>, p: &Vec<char>) -> (r: bool)
    ensures
        r == has_substring(s@, p@),
{
    if p.len() > s.len() {
        return false;
    }
    let last = s.len() - p.len();
    let mut at: usize = 0;
    loop
        invariant
            at <= last,
            last + p@.len() == s@.len(),
            forall|i: int| 0 <= i < at ==> #[trigger] s@.subrange(i, i + p@.len()) != p@,
        decreases last + 1 - at,
    {
        if occurs_at(s, p, at) {
            return true;
        }
        if at == last {
            return false;
        }
        at += 1;
    }
}

/// Keeps the paths of `files` that contain `pattern`, in order. An empty
/// pattern keeps every path.
pub fn find(files: Vec<String>, pattern: &str) -> (r: Vec<String>)
    ensures
        r.deep_view() == matching(files.deep_view(), pattern@),
{
    let p = chars_of(pattern);
    let mut r: Vec<String> = Vec::new();
    let mut i: usize = 0;
    while i < files.len()
        invariant
            i <= files@.len(),
            p@ == pattern@,
            r.deep_view() == matching(files.deep_view().subrange(0, i as int), pattern@),
        decreases files@.len() - i,
    {
        let file = &files[i];
        let c = chars_of(file.as_str());
        let keep = contains_chars(&c, &p);
        proof {
            let s = files.deep_view().subrange(0, i + 1);
            assert(s.drop_last() =~= files.deep_view().subrange(0, i as int));
            assert(s.last() == file@);
        }
        if keep {
            r.push(file.clone());
            proof {
                assert(r.deep_view() =~= matching(files.deep_view().subrange(0, i + 1), pattern@));
            }
        }
        i += 1;
    }
    proof {
        assert(files.deep_view().subrange(0, i as int) =~= files.deep_view());
    }
    r
}

} // verus!
