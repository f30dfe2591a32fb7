use vstd::prelude::*;
use vstd::string::StrSliceExecFns;

verus! {

/// Prefix that marks a seat driven by the bot policy.
pub const BOT_PREFIX: &'static str = "bot_";

/// `p` is a prefix of `s`.
pub open spec fn is_prefix(p: Seq<char>, s: Seq<char>) -> bool {
    p.len() <= s.len() && s.subrange(0, p.len() as int) == p
}

/// `p` occurs somewhere in `s`.
pub open spec fn occurs_in(p: Seq<char>, s: Seq<char>) -> bool {
    exists|k: int| 0 <= k && k + p.len() <= s.len() && #[trigger] s.subrange(k, k + p.len()) == p
}

/// Whether `a` and `b` are the same string.
pub fn same_id(a: &str, b: &str) -> (r: bool)
    ensures
        r == (a@ == b@),
{
    let n = a.unicode_len();
    if n != b.unicode_len() {
        return false;
    }
    let mut i: usize = 0;
    while i < n
        invariant
            n == a@.len() == b@.len(),
            i <= n,
            forall|k: int| 0 <= k < i ==> a@[k] == b@[k],
        decreases n - i,
    {
        if a.get_char(i) != b.get_char(i) {
            return false;
        }
        i = i + 1;
    }
    proof {
        assert(a@ =~= b@);
    }
    true
}

/// Whether `s` occurs in `t` starting at position `k`.
fn occurs_at(p: &str, t: &str, k: usize) -> (r: bool)
    requires
        k + p@.len() <= t@.len(),
    ensures
        r == (t@.subrange(k as int, k + p@.len()) == p@),
{
    let n = p.unicode_len();
    let tn = t.unicode_len();
    let mut i: usize = 0;
    while i < n
        invariant
            n == p@.len(),
            tn == t@.len(),
            k + n <= t@.len(),
            i <= n,
            forall|j: int| 0 <= j < i ==> t@[k + j] == p@[j],
        decreases n - i,
    {
        if t.get_char(k + i) != p.get_char(i) {
            proof {
                assert(t@.subrange(k as int, k + p@.len())[i as int] == t@[k + i]);
            }
            return false;
        }
        i = i + 1;
    }
    proof {
        assert(t@.subrange(k as int, k + p@.len()) =~= p@);
    }
    true
}

/// Whether `s` starts with `p`.
pub fn starts_with(s: &str, p: &str) -> (r: bool)
    ensures
        r == is_prefix(p@, s@),
{
    if p.unicode_len() > s.unicode_len() {
        return false;
    }
    occurs_at(p, s, 0)
}

/// Whether `p` occurs in `s`.
pub fn contains(s: &str, p: &str) -> (r: bool)
    ensures
        r == occurs_in(p@, s@),
{
    let n = s.unicode_len();
    let m = p.unicode_len();
    if m > n {
        return false;
    }
    if m == 0 {
        proof {
            assert(s@.subrange(0int, 0int + p@.len()) =~= p@);
        }
        return true;
    }
    let mut k: usize = 0;
    while k <= n - m
        invariant
            n == s@.len(),
            m == p@.len(),
            0 < m <= n,
            k <= n - m + 1,
            forall|j: int| 0 <= j < k ==> #[trigger] s@.subrange(j, j + m) != p@,
        decreases n - m + 1 - k,
    {
        if occurs_at(p, s, k) {
            return true;
        }
        k = k + 1;
    }
    false
}

/// Whether `id` names a bot seat (it starts with `bot_`).
pub fn is_bot_id(id: &str) -> (r: bool)
    ensures
        r == is_prefix(BOT_PREFIX@, id@),
{
    starts_with(id, BOT_PREFIX)
}

} // verus!
