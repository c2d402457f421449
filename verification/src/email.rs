//! The address grammar.
//!
//! An address is a local part of characters from `[A-Z0-9._%+-]`, an `@`, a
//! domain of characters from `[A-Z0-9.-]`, a dot and a top-level label of at
//! least two letters, all letters matched without regard to case. Case-blind
//! matching of the letter ranges also admits U+017F (long s, folding to `s`)
//! and U+212A (Kelvin sign, folding to `k`).
//!
//! Addresses are found in free text the way a leftmost-first, greedy pattern
//! search finds them: the earliest possible start wins, the domain part takes
//! the longest run that still leaves a dot and two letters, the top-level
//! label takes every letter that follows, and the next search starts where
//! the previous match ended.

use vstd::prelude::*;

verus! {

// ---------------------------------------------------------------------------
// Character classes
// ---------------------------------------------------------------------------

/// The two non-ASCII characters that fold onto ASCII letters.
pub open spec fn is_folded_letter(c: char) -> bool {
    c == '\u{17f}' || c == '\u{212a}'
}

pub open spec fn is_ascii_letter(c: char) -> bool {
    ('a' <= c && c <= 'z') || ('A' <= c && c <= 'Z')
}

pub open spec fn is_ascii_digit(c: char) -> bool {
    '0' <= c && c <= '9'
}

/// `[A-Z0-9._%+-]`, case-blind.
pub open spec fn is_local_char(c: char) -> bool {
    is_ascii_letter(c) || is_ascii_digit(c) || is_folded_letter(c) || c == '.' || c == '_' || c
        == '%' || c == '+' || c == '-'
}

/// `[A-Z0-9.-]`, case-blind.
pub open spec fn is_domain_char(c: char) -> bool {
    is_ascii_letter(c) || is_ascii_digit(c) || is_folded_letter(c) || c == '.' || c == '-'
}

/// `[A-Z]`, case-blind.
pub open spec fn is_tld_char(c: char) -> bool {
    is_ascii_letter(c) || is_folded_letter(c)
}

pub fn local_char(c: char) -> (b: bool)
    ensures
        b == is_local_char(c),
{
    ('a' <= c && c <= 'z') || ('A' <= c && c <= 'Z') || ('0' <= c && c <= '9') || c == '\u{17f}'
        || c == '\u{212a}' || c == '.' || c == '_' || c == '%' || c == '+' || c == '-'
}

pub fn domain_char(c: char) -> (b: bool)
    ensures
        b == is_domain_char(c),
{
    ('a' <= c && c <= 'z') || ('A' <= c && c <= 'Z') || ('0' <= c && c <= '9') || c == '\u{17f}'
        || c == '\u{212a}' || c == '.' || c == '-'
}

pub fn tld_char(c: char) -> (b: bool)
    ensures
        b == is_tld_char(c),
{
    ('a' <= c && c <= 'z') || ('A' <= c && c <= 'Z') || c == '\u{17f}' || c == '\u{212a}'
}

// ---------------------------------------------------------------------------
// Whole-string syntax: the anchored pattern ^L+@D+\.A{2,}$
// ---------------------------------------------------------------------------

/// `e` is one address and nothing else: `e[..a]` is a non-empty local part,
/// `e[a]` is `@`, `e[a+1..j]` is a non-empty domain, `e[j]` is a dot and
/// `e[j+1..]` holds at least two letters.
pub open spec fn is_email_syntax(e: Seq<char>) -> bool {
    exists|a: int, j: int| is_email_split(e, a, j)
}

pub open spec fn is_email_split(e: Seq<char>, a: int, j: int) -> bool {
    &&& 0 < a
    &&& a + 1 < j
    &&& j + 2 < e.len()
    &&& e[a] == '@'
    &&& e[j] == '.'
    &&& forall|k: int| 0 <= k < a ==> #[trigger] is_local_char(e[k])
    &&& forall|k: int| a < k < j ==> #[trigger] is_domain_char(e[k])
    &&& forall|k: int| j < k < e.len() ==> #[trigger] is_tld_char(e[k])
}

/// Whether `cs` is one address and nothing else.
pub fn has_email_syntax(cs: &Vec<char>) -> (b: bool)
    ensures
        b == is_email_syntax(cs@),
{
    let n = cs.len();
    // The first '@' must end a non-empty local part.
    let mut a: usize = 0;
    while a < n && cs[a] != '@'
        invariant
            a <= n == cs.len(),
            forall|k: int| 0 <= k < a ==> cs@[k] != '@',
        decreases n - a,
    {
        a += 1;
    }
    if a == n || a == 0 {
        proof {
            assert forall|x: int, y: int| !is_email_split(cs@, x, y) by {
                if is_email_split(cs@, x, y) {
                    if x < a {
                        assert(cs@[x] != '@');
                    } else {
                        assert(is_local_char(cs@[a as int]));
                    }
                }
            }
        }
        return false;
    }
    let mut k: usize = 0;
    while k < a
        invariant
            0 < a < n == cs.len(),
            k <= a,
            cs@[a as int] == '@',
            forall|i: int| 0 <= i < a ==> cs@[i] != '@',
            forall|i: int| 0 <= i < k ==> is_local_char(cs@[i]),
        decreases a - k,
    {
        if !local_char(cs[k]) {
            proof {
                assert forall|x: int, y: int| !is_email_split(cs@, x, y) by {
                    if is_email_split(cs@, x, y) {
                        if x < a {
                            assert(cs@[x] != '@');
                        } else if x > a {
                            assert(is_local_char(cs@[a as int]));
                        } else {
                            assert(is_local_char(cs@[k as int]));
                        }
                    }
                }
            }
            return false;
        }
        k += 1;
    }
    // Everything after the '@' must be a domain character; the dot before
    // the top-level label is the last dot.
    let mut m: usize = a + 1;
    let mut last_dot: usize = n;
    while m < n
        invariant
            0 < a < m <= n == cs.len(),
            cs@[a as int] == '@',
            forall|i: int| 0 <= i < a ==> cs@[i] != '@',
            forall|i: int| a < i < m ==> is_domain_char(cs@[i]),
            last_dot == n || (a < last_dot < m && cs@[last_dot as int] == '.'),
            forall|i: int| a < i < m && cs@[i] == '.' ==> i <= last_dot || last_dot == n,
            last_dot == n ==> forall|i: int| a < i < m ==> cs@[i] != '.',
        decreases n - m,
    {
        if !domain_char(cs[m]) {
            proof {
                assert forall|x: int, y: int| !is_email_split(cs@, x, y) by {
                    if is_email_split(cs@, x, y) {
                        if x < a {
                            assert(cs@[x] != '@');
                        } else if x > a {
                            assert(is_local_char(cs@[a as int]));
                        } else if m < y {
                            assert(is_domain_char(cs@[m as int]));
                        } else if m > y {
                            assert(is_tld_char(cs@[m as int]));
                        }
                    }
                }
            }
            return false;
        }
        if cs[m] == '.' {
            last_dot = m;
        }
        m += 1;
    }
    if last_dot == n || last_dot < a + 2 || n - last_dot < 3 {
        proof {
            assert forall|x: int, y: int| !is_email_split(cs@, x, y) by {
                if is_email_split(cs@, x, y) {
                    if x < a {
                        assert(cs@[x] != '@');
                    } else if x > a {
                        assert(is_local_char(cs@[a as int]));
                    } else {
                        assert(cs@[y] == '.');
                        if last_dot != n && last_dot > y {
                            assert(is_tld_char(cs@[last_dot as int]));
                        }
                    }
                }
            }
        }
        return false;
    }
    let mut t: usize = last_dot + 1;
    while t < n
        invariant
            a + 2 <= last_dot < t <= n == cs.len(),
            0 < a,
            cs@[a as int] == '@',
            cs@[last_dot as int] == '.',
            forall|i: int| 0 <= i < a ==> cs@[i] != '@',
            forall|i: int| a < i < n && cs@[i] == '.' ==> i <= last_dot,
            forall|i: int| 0 <= i < a ==> is_local_char(cs@[i]),
            forall|i: int| a < i < n ==> is_domain_char(cs@[i]),
            forall|i: int| last_dot < i < t ==> is_tld_char(cs@[i]),
        decreases n - t,
    {
        if !tld_char(cs[t]) {
            proof {
                assert forall|x: int, y: int| !is_email_split(cs@, x, y) by {
                    if is_email_split(cs@, x, y) {
                        if x < a {
                            assert(cs@[x] != '@');
                        } else if x > a {
                            assert(is_local_char(cs@[a as int]));
                        } else {
                            if y < last_dot {
                                assert(is_tld_char(cs@[last_dot as int]));
                            } else if y > last_dot {
                                assert(cs@[y] == '.');
                            } else {
                                assert(is_tld_char(cs@[t as int]));
                            }
                        }
                    }
                }
            }
            return false;
        }
        t += 1;
    }
    assert(is_email_split(cs@, a as int, last_dot as int));
    true
}

// ---------------------------------------------------------------------------
// Searching free text
// ---------------------------------------------------------------------------

/// End of the run of domain characters that starts at `i`.
pub open spec fn domain_run_end(s: Seq<char>, i: int) -> int
    decreases s.len() - i,
{
    if 0 <= i < s.len() && is_domain_char(s[i]) {
        domain_run_end(s, i + 1)
    } else {
        i
    }
}

/// End of the run of top-level-label letters that starts at `i`.
pub open spec fn tld_run_end(s: Seq<char>, i: int) -> int
    decreases s.len() - i,
{
    if 0 <= i < s.len() && is_tld_char(s[i]) {
        tld_run_end(s, i + 1)
    } else {
        i
    }
}

/// `s[j]` is a dot followed by two letters.
pub open spec fn is_tld_dot(s: Seq<char>, j: int) -> bool {
    0 <= j && j + 2 < s.len() && s[j] == '.' && is_tld_char(s[j + 1]) && is_tld_char(s[j + 2])
}

/// The largest `j` in `[lo, hi)` at which [`is_tld_dot`] holds.
pub open spec fn last_tld_dot(s: Seq<char>, lo: int, hi: int) -> Option<int>
    decreases hi - lo,
{
    if hi <= lo {
        None
    } else if is_tld_dot(s, hi - 1) {
        Some(hi - 1)
    } else {
        last_tld_dot(s, lo, hi - 1)
    }
}

/// Start of the local part that ends just before `a`, reaching back no
/// further than `pos`.
pub open spec fn local_start(s: Seq<char>, pos: int, a: int) -> int
    decreases a - pos,
{
    if pos < a && is_local_char(s[a - 1]) {
        local_start(s, pos, a - 1)
    } else {
        a
    }
}

/// The match built around the `@` at `a`, for a search that began at `pos`.
pub open spec fn match_at(s: Seq<char>, pos: int, a: int) -> Option<(int, int)> {
    if 0 <= a < s.len() && s[a] == '@' && local_start(s, pos, a) < a {
        match last_tld_dot(s, a + 2, domain_run_end(s, a + 1)) {
            Some(j) => Some((local_start(s, pos, a), tld_run_end(s, j + 1))),
            None => None,
        }
    } else {
        None
    }
}

/// The first match of a search that began at `pos`, trying the `@` signs
/// from `a` on.
pub open spec fn first_match_from(s: Seq<char>, pos: int, a: int) -> Option<(int, int)>
    decreases s.len() - a,
{
    if a >= s.len() {
        None
    } else {
        match match_at(s, pos, a) {
            Some(m) => Some(m),
            None => first_match_from(s, pos, a + 1),
        }
    }
}

/// The successive matches of a search from `pos`, each search resuming
/// where the previous match ended.
pub open spec fn matches_from(s: Seq<char>, pos: nat) -> Seq<(int, int)>
    decreases s.len() - pos,
{
    match first_match_from(s, pos as int, pos as int) {
        Some(m) => {
            proof {
                lemma_first_match_bounds(s, pos as int, pos as int);
            }
            seq![m] + matches_from(s, m.1 as nat)
        },
        None => Seq::empty(),
    }
}

/// The addresses found in `s`, in order of appearance (with repetitions).
pub open spec fn found_addresses(s: Seq<char>) -> Seq<Seq<char>> {
    matches_from(s, 0).map_values(|m: (int, int)| s.subrange(m.0, m.1))
}

// ---------------------------------------------------------------------------
// Facts about the search
// ---------------------------------------------------------------------------

pub proof fn lemma_domain_run_end(s: Seq<char>, i: int)
    requires
        0 <= i,
    ensures
        i <= domain_run_end(s, i),
        i <= s.len() ==> domain_run_end(s, i) <= s.len(),
        forall|k: int| i <= k < domain_run_end(s, i) ==> #[trigger] is_domain_char(s[k]),
        domain_run_end(s, i) < s.len() ==> !is_domain_char(s[domain_run_end(s, i)]),
    decreases s.len() - i,
{
    if 0 <= i < s.len() && is_domain_char(s[i]) {
        lemma_domain_run_end(s, i + 1);
    }
}

pub proof fn lemma_tld_run_end(s: Seq<char>, i: int)
    requires
        0 <= i,
    ensures
        i <= tld_run_end(s, i),
        i <= s.len() ==> tld_run_end(s, i) <= s.len(),
        forall|k: int| i <= k < tld_run_end(s, i) ==> #[trigger] is_tld_char(s[k]),
        tld_run_end(s, i) < s.len() ==> !is_tld_char(s[tld_run_end(s, i)]),
    decreases s.len() - i,
{
    if 0 <= i < s.len() && is_tld_char(s[i]) {
        lemma_tld_run_end(s, i + 1);
    }
}

pub proof fn lemma_last_tld_dot(s: Seq<char>, lo: int, hi: int)
    ensures
        last_tld_dot(s, lo, hi) matches Some(j) ==> {
            &&& lo <= j < hi
            &&& is_tld_dot(s, j)
            &&& forall|k: int| j < k < hi ==> !#[trigger] is_tld_dot(s, k)
        },
        last_tld_dot(s, lo, hi) is None ==> forall|k: int|
            lo <= k < hi ==> !#[trigger] is_tld_dot(s, k),
    decreases hi - lo,
{
    if hi > lo && !is_tld_dot(s, hi - 1) {
        lemma_last_tld_dot(s, lo, hi - 1);
    }
}

pub proof fn lemma_local_start(s: Seq<char>, pos: int, a: int)
    requires
        pos <= a,
    ensures
        pos <= local_start(s, pos, a) <= a,
        forall|k: int| local_start(s, pos, a) <= k < a ==> #[trigger] is_local_char(s[k]),
        local_start(s, pos, a) > pos ==> !is_local_char(s[local_start(s, pos, a) - 1]),
    decreases a - pos,
{
    if pos < a && is_local_char(s[a - 1]) {
        lemma_local_start(s, pos, a - 1);
    }
}

pub proof fn lemma_match_at_bounds(s: Seq<char>, pos: int, a: int)
    requires
        0 <= pos <= a,
    ensures
        match_at(s, pos, a) matches Some(m) ==> pos <= m.0 < a < m.1 <= s.len() && is_email_syntax(
            s.subrange(m.0, m.1),
        ),
{
    if let Some(m) = match_at(s, pos, a) {
        lemma_local_start(s, pos, a);
        lemma_domain_run_end(s, a + 1);
        let q = domain_run_end(s, a + 1);
        lemma_last_tld_dot(s, a + 2, q);
        let j = last_tld_dot(s, a + 2, q)->0;
        lemma_tld_run_end(s, j + 1);
        let st = m.0;
        let e = m.1;
        assert(tld_run_end(s, j + 1) >= j + 3) by {
            assert(is_tld_char(s[j + 1]));
            assert(is_tld_char(s[j + 2]));
            assert(tld_run_end(s, j + 1) == tld_run_end(s, j + 2));
            assert(tld_run_end(s, j + 2) == tld_run_end(s, j + 3));
            lemma_tld_run_end(s, j + 3);
        }
        let sub = s.subrange(st, e);
        assert(is_email_split(sub, a - st, j - st)) by {
            assert forall|k: int| 0 <= k < a - st implies #[trigger] is_local_char(sub[k]) by {
                assert(sub[k] == s[k + st]);
            }
            assert forall|k: int| a - st < k < j - st implies #[trigger] is_domain_char(
                sub[k],
            ) by {
                assert(sub[k] == s[k + st]);
            }
            assert forall|k: int| j - st < k < sub.len() implies #[trigger] is_tld_char(
                sub[k],
            ) by {
                assert(sub[k] == s[k + st]);
            }
        }
    }
}

pub proof fn lemma_first_match_bounds(s: Seq<char>, pos: int, a: int)
    requires
        0 <= pos <= a,
    ensures
        first_match_from(s, pos, a) matches Some(m) ==> pos <= m.0 < m.1 <= s.len() && a < m.1
            && is_email_syntax(s.subrange(m.0, m.1)),
    decreases s.len() - a,
{
    if a < s.len() {
        lemma_match_at_bounds(s, pos, a);
        if match_at(s, pos, a) is None {
            lemma_first_match_bounds(s, pos, a + 1);
        }
    }
}

/// Every address the search finds has the whole-string syntax.
pub proof fn lemma_matches_are_addresses(s: Seq<char>, pos: nat)
    ensures
        forall|k: int|
            0 <= k < matches_from(s, pos).len() ==> {
                let m = #[trigger] matches_from(s, pos)[k];
                &&& pos <= m.0 < m.1 <= s.len()
                &&& is_email_syntax(s.subrange(m.0, m.1))
            },
    decreases s.len() - pos,
{
    lemma_first_match_bounds(s, pos as int, pos as int);
    if let Some(m) = first_match_from(s, pos as int, pos as int) {
        lemma_matches_are_addresses(s, m.1 as nat);
        assert forall|k: int| 0 <= k < matches_from(s, pos).len() implies {
            let mm = #[trigger] matches_from(s, pos)[k];
            &&& pos <= mm.0 < mm.1 <= s.len()
            &&& is_email_syntax(s.subrange(mm.0, mm.1))
        } by {
            if k > 0 {
                assert(matches_from(s, pos)[k] == matches_from(s, m.1 as nat)[k - 1]);
            }
        }
    }
}

/// No `@` in `[from, to)` starts a match: the search from `from` finds what
/// the search from `to` finds.
proof fn lemma_first_match_skip(s: Seq<char>, pos: int, from: int, to: int)
    requires
        0 <= from <= to <= s.len(),
        forall|a: int| from <= a < to ==> match_at(s, pos, a) is None,
    ensures
        first_match_from(s, pos, from) == first_match_from(s, pos, to),
    decreases to - from,
{
    if from < to {
        lemma_first_match_skip(s, pos, from + 1, to);
    }
}

/// An address on its own is found whole, and only once: searching the text
/// of one address gives back that address.
pub proof fn lemma_address_found_whole(e: Seq<char>)
    requires
        is_email_syntax(e),
    ensures
        found_addresses(e) == seq![e],
{
    let (a, j) = choose|a: int, j: int| is_email_split(e, a, j);
    let n = e.len() as int;
    // No '@' before a.
    assert forall|x: int| 0 <= x < a implies match_at(e, 0, x) is None by {
        assert(is_local_char(e[x]));
    }
    lemma_first_match_skip(e, 0, 0, a);
    // The local part reaches back to the start.
    lemma_local_start(e, 0, a);
    let ls = local_start(e, 0, a);
    if ls > 0 {
        assert(is_local_char(e[ls - 1]));
    }
    // The domain run reaches the end.
    lemma_domain_run_end(e, a + 1);
    let q = domain_run_end(e, a + 1);
    if q < n {
        if q < j {
            assert(is_domain_char(e[q]));
        } else if q > j {
            assert(is_tld_char(e[q]));
        }
    }
    assert(q == n);
    // The last dot followed by two letters is j.
    lemma_last_tld_dot(e, a + 2, n);
    assert(is_tld_dot(e, j)) by {
        assert(is_tld_char(e[j + 1]));
        assert(is_tld_char(e[j + 2]));
    }
    let jj = last_tld_dot(e, a + 2, n)->0;
    if last_tld_dot(e, a + 2, n) is None {
        assert(!is_tld_dot(e, j));
    }
    if jj > j {
        assert(is_tld_char(e[jj]));
    }
    if jj < j {
        assert(!is_tld_dot(e, j));
    }
    assert(jj == j);
    // The top-level label reaches the end.
    lemma_tld_run_end(e, j + 1);
    let t = tld_run_end(e, j + 1);
    if t < n {
        assert(is_tld_char(e[t]));
    }
    assert(match_at(e, 0, a) == Some((0int, n)));
    assert(first_match_from(e, 0, a) == Some((0int, n)));
    assert(matches_from(e, n as nat) =~= Seq::<(int, int)>::empty());
    assert(matches_from(e, 0) =~= seq![(0int, n)]);
    assert(e.subrange(0, n) =~= e);
    assert(found_addresses(e) =~= seq![e]);
}

// ---------------------------------------------------------------------------
// Searching joined texts
// ---------------------------------------------------------------------------

/// A character that no address contains: not a local-part character and
/// not `@` (the domain and top-level characters are local-part characters).
pub open spec fn is_separator(c: char) -> bool {
    !is_local_char(c) && c != '@'
}

/// The matches `ms`, moved `d` positions to the right.
pub open spec fn shifted(ms: Seq<(int, int)>, d: int) -> Seq<(int, int)> {
    ms.map_values(|m: (int, int)| (m.0 + d, m.1 + d))
}

proof fn lemma_suffix_local_start(u: Seq<char>, v: Seq<char>, pos: int, a: int)
    requires
        u.len() <= pos <= a <= (u + v).len(),
    ensures
        local_start(u + v, pos, a) == local_start(v, pos - u.len(), a - u.len()) + u.len(),
    decreases a - pos,
{
    let s = u + v;
    if pos < a {
        assert(s[a - 1] == v[a - 1 - u.len()]);
        lemma_suffix_local_start(u, v, pos, a - 1);
    }
}

proof fn lemma_suffix_domain_run_end(u: Seq<char>, v: Seq<char>, i: int)
    requires
        u.len() <= i,
    ensures
        domain_run_end(u + v, i) == domain_run_end(v, i - u.len()) + u.len(),
    decreases (u + v).len() - i,
{
    let s = u + v;
    if i < s.len() {
        assert(s[i] == v[i - u.len()]);
        lemma_suffix_domain_run_end(u, v, i + 1);
    }
}

proof fn lemma_suffix_tld_run_end(u: Seq<char>, v: Seq<char>, i: int)
    requires
        u.len() <= i,
    ensures
        tld_run_end(u + v, i) == tld_run_end(v, i - u.len()) + u.len(),
    decreases (u + v).len() - i,
{
    let s = u + v;
    if i < s.len() {
        assert(s[i] == v[i - u.len()]);
        lemma_suffix_tld_run_end(u, v, i + 1);
    }
}

proof fn lemma_suffix_last_tld_dot(u: Seq<char>, v: Seq<char>, lo: int, hi: int)
    requires
        u.len() <= lo,
    ensures
        last_tld_dot(u + v, lo, hi) == (match last_tld_dot(v, lo - u.len(), hi - u.len()) {
            Some(j) => Some(j + u.len()),
            None => None,
        }),
    decreases hi - lo,
{
    let s = u + v;
    let d = u.len() as int;
    if hi > lo {
        let j = hi - 1;
        if 0 <= j - d && j - d + 2 < v.len() {
            assert(s[j] == v[j - d]);
            assert(s[j + 1] == v[j - d + 1]);
            assert(s[j + 2] == v[j - d + 2]);
        }
        assert(is_tld_dot(s, j) == is_tld_dot(v, j - d));
        lemma_suffix_last_tld_dot(u, v, lo, hi - 1);
    }
}

proof fn lemma_suffix_match_at(u: Seq<char>, v: Seq<char>, pos: int, a: int)
    requires
        u.len() <= pos <= a,
    ensures
        match_at(u + v, pos, a) == (match match_at(v, pos - u.len(), a - u.len()) {
            Some(m) => Some((m.0 + u.len(), m.1 + u.len())),
            None => None,
        }),
{
    let s = u + v;
    let d = u.len() as int;
    if a < s.len() {
        assert(s[a] == v[a - d]);
        lemma_suffix_local_start(u, v, pos, a);
        lemma_suffix_domain_run_end(u, v, a + 1);
        lemma_suffix_last_tld_dot(u, v, a + 2, domain_run_end(s, a + 1));
        lemma_last_tld_dot(s, a + 2, domain_run_end(s, a + 1));
        if let Some(j) = last_tld_dot(s, a + 2, domain_run_end(s, a + 1)) {
            lemma_suffix_tld_run_end(u, v, j + 1);
        }
    }
}

proof fn lemma_suffix_first_match(u: Seq<char>, v: Seq<char>, pos: int, a: int)
    requires
        u.len() <= pos <= a,
    ensures
        first_match_from(u + v, pos, a) == (match first_match_from(v, pos - u.len(), a - u.len()) {
            Some(m) => Some((m.0 + u.len(), m.1 + u.len())),
            None => None,
        }),
    decreases (u + v).len() - a,
{
    if a < (u + v).len() {
        lemma_suffix_match_at(u, v, pos, a);
        lemma_suffix_first_match(u, v, pos, a + 1);
    }
}

/// A search that starts inside the suffix `v` of `u + v` finds the matches
/// of the same search in `v`, moved by the length of `u`.
proof fn lemma_suffix_matches(u: Seq<char>, v: Seq<char>, pos: nat)
    requires
        u.len() <= pos,
    ensures
        matches_from(u + v, pos) == shifted(matches_from(v, (pos - u.len()) as nat), u.len() as int),
    decreases (u + v).len() - pos,
{
    let s = u + v;
    let d = u.len() as int;
    lemma_suffix_first_match(u, v, pos as int, pos as int);
    lemma_first_match_bounds(s, pos as int, pos as int);
    lemma_first_match_bounds(v, pos - d, pos - d);
    match first_match_from(v, pos - d, pos - d) {
        Some(m) => {
            lemma_suffix_matches(u, v, (m.1 + d) as nat);
            assert(matches_from(v, (pos - d) as nat) == seq![m] + matches_from(v, m.1 as nat));
            assert(shifted(matches_from(v, (pos - d) as nat), d) =~= seq![(m.0 + d, m.1 + d)]
                + shifted(matches_from(v, m.1 as nat), d));
        },
        None => {
            assert(shifted(matches_from(v, (pos - d) as nat), d) =~= Seq::<(int, int)>::empty());
        },
    }
}

proof fn lemma_prefix_local_start(p: Seq<char>, t: Seq<char>, pos: int, a: int)
    requires
        0 <= pos <= a <= p.len(),
    ensures
        local_start(p + t, pos, a) == local_start(p, pos, a),
    decreases a - pos,
{
    if pos < a {
        assert((p + t)[a - 1] == p[a - 1]);
        lemma_prefix_local_start(p, t, pos, a - 1);
    }
}

proof fn lemma_prefix_domain_run_end(p: Seq<char>, c: char, q: Seq<char>, i: int)
    requires
        0 <= i <= p.len(),
        is_separator(c),
    ensures
        domain_run_end(p + seq![c] + q, i) == domain_run_end(p, i),
    decreases p.len() - i,
{
    let s = p + seq![c] + q;
    if i < p.len() {
        assert(s[i] == p[i]);
        lemma_prefix_domain_run_end(p, c, q, i + 1);
    } else {
        assert(s[i] == c);
    }
}

proof fn lemma_prefix_tld_run_end(p: Seq<char>, c: char, q: Seq<char>, i: int)
    requires
        0 <= i <= p.len(),
        is_separator(c),
    ensures
        tld_run_end(p + seq![c] + q, i) == tld_run_end(p, i),
    decreases p.len() - i,
{
    let s = p + seq![c] + q;
    if i < p.len() {
        assert(s[i] == p[i]);
        lemma_prefix_tld_run_end(p, c, q, i + 1);
    } else {
        assert(s[i] == c);
    }
}

proof fn lemma_prefix_last_tld_dot(p: Seq<char>, c: char, q: Seq<char>, lo: int, hi: int)
    requires
        hi <= p.len(),
        is_separator(c),
    ensures
        last_tld_dot(p + seq![c] + q, lo, hi) == last_tld_dot(p, lo, hi),
    decreases hi - lo,
{
    let s = p + seq![c] + q;
    let n = p.len() as int;
    if hi > lo {
        let j = hi - 1;
        if 0 <= j {
            if j + 2 < n {
                assert(s[j] == p[j]);
                assert(s[j + 1] == p[j + 1]);
                assert(s[j + 2] == p[j + 2]);
            } else if j + 1 == n {
                assert(s[j + 1] == c);
            } else {
                assert(s[j + 2] == c);
            }
        }
        assert(is_tld_dot(s, j) == is_tld_dot(p, j));
        lemma_prefix_last_tld_dot(p, c, q, lo, hi - 1);
    }
}

proof fn lemma_prefix_match_at(p: Seq<char>, c: char, q: Seq<char>, pos: int, a: int)
    requires
        0 <= pos <= a <= p.len(),
        is_separator(c),
    ensures
        match_at(p + seq![c] + q, pos, a) == match_at(p, pos, a),
{
    let s = p + seq![c] + q;
    if a < p.len() {
        assert(s[a] == p[a]);
        lemma_prefix_local_start(p, seq![c] + q, pos, a);
        assert(s == p + (seq![c] + q));
        lemma_prefix_domain_run_end(p, c, q, a + 1);
        lemma_domain_run_end(p, a + 1);
        lemma_prefix_last_tld_dot(p, c, q, a + 2, domain_run_end(p, a + 1));
        lemma_last_tld_dot(p, a + 2, domain_run_end(p, a + 1));
        if let Some(j) = last_tld_dot(p, a + 2, domain_run_end(p, a + 1)) {
            lemma_prefix_tld_run_end(p, c, q, j + 1);
        }
    } else {
        assert(s[a] == c);
    }
}

/// Past the separator, the search ignores where it began.
proof fn lemma_start_before_separator(s: Seq<char>, b: int, pos: int, a: int)
    requires
        0 <= pos <= b <= a,
        0 < b <= s.len(),
        is_separator(s[b - 1]),
    ensures
        local_start(s, pos, a) == local_start(s, b, a),
        match_at(s, pos, a) == match_at(s, b, a),
    decreases a - b,
{
    if a > b && is_local_char(s[a - 1]) {
        lemma_start_before_separator(s, b, pos, a - 1);
    }
}

proof fn lemma_first_match_past_separator(s: Seq<char>, b: int, pos: int, a: int)
    requires
        0 <= pos <= b <= a,
        0 < b <= s.len(),
        is_separator(s[b - 1]),
    ensures
        first_match_from(s, pos, a) == first_match_from(s, b, a),
    decreases s.len() - a,
{
    if a < s.len() {
        lemma_start_before_separator(s, b, pos, a);
        lemma_first_match_past_separator(s, b, pos, a + 1);
    }
}

proof fn lemma_prefix_first_match(p: Seq<char>, c: char, q: Seq<char>, pos: int, a: int)
    requires
        0 <= pos <= a <= p.len(),
        is_separator(c),
    ensures
        first_match_from(p + seq![c] + q, pos, a) == (match first_match_from(p, pos, a) {
            Some(m) => Some(m),
            None => first_match_from(p + seq![c] + q, p.len() + 1int, p.len() + 1int),
        }),
    decreases p.len() - a,
{
    let s = p + seq![c] + q;
    let b = p.len() + 1int;
    lemma_prefix_match_at(p, c, q, pos, a);
    if a < p.len() {
        lemma_prefix_first_match(p, c, q, pos, a + 1);
    } else {
        assert(s[b - 1] == c);
        lemma_first_match_past_separator(s, b, pos, b);
    }
}

proof fn lemma_prefix_matches(p: Seq<char>, c: char, q: Seq<char>, pos: nat)
    requires
        pos <= p.len(),
        is_separator(c),
    ensures
        matches_from(p + seq![c] + q, pos) == matches_from(p, pos) + matches_from(
            p + seq![c] + q,
            (p.len() + 1) as nat,
        ),
    decreases p.len() - pos,
{
    let s = p + seq![c] + q;
    let b = (p.len() + 1) as nat;
    lemma_prefix_first_match(p, c, q, pos as int, pos as int);
    lemma_first_match_bounds(p, pos as int, pos as int);
    match first_match_from(p, pos as int, pos as int) {
        Some(m) => {
            lemma_prefix_matches(p, c, q, m.1 as nat);
            assert(matches_from(p, pos) == seq![m] + matches_from(p, m.1 as nat));
            assert(matches_from(s, pos) == seq![m] + matches_from(s, m.1 as nat));
            assert(matches_from(s, pos) =~= matches_from(p, pos) + matches_from(s, b));
        },
        None => {
            assert(matches_from(p, pos) =~= Seq::<(int, int)>::empty());
            assert(matches_from(s, pos) =~= matches_from(s, b));
            assert(matches_from(s, pos) =~= matches_from(p, pos) + matches_from(s, b));
        },
    }
}

/// No address reaches across a separator (such as white space): the
/// addresses found in `p`, a separator and `q` are those found in `p`
/// followed by those found in `q`.
pub proof fn lemma_search_splits_at_separator(p: Seq<char>, c: char, q: Seq<char>)
    requires
        is_separator(c),
    ensures
        found_addresses(p + seq![c] + q) == found_addresses(p) + found_addresses(q),
{
    let s = p + seq![c] + q;
    let u = p + seq![c];
    let b = u.len() as int;
    assert(s == u + q);
    lemma_prefix_matches(p, c, q, 0);
    lemma_suffix_matches(u, q, b as nat);
    lemma_matches_are_addresses(p, 0);
    lemma_matches_are_addresses(q, 0);
    let mp = matches_from(p, 0);
    let mq = matches_from(q, 0);
    assert(matches_from(s, 0) == mp + shifted(mq, b));
    let lhs = found_addresses(s);
    let rhs = found_addresses(p) + found_addresses(q);
    assert(lhs.len() == rhs.len());
    assert forall|k: int| 0 <= k < lhs.len() implies lhs[k] == rhs[k] by {
        if k < mp.len() {
            let m = mp[k];
            assert(matches_from(s, 0)[k] == m);
            assert(s.subrange(m.0, m.1) =~= p.subrange(m.0, m.1));
        } else {
            let m = mq[k - mp.len()];
            assert(matches_from(s, 0)[k] == (m.0 + b, m.1 + b));
            assert(s.subrange(m.0 + b, m.1 + b) =~= q.subrange(m.0, m.1));
        }
    }
    assert(lhs =~= rhs);
}

/// White space is a separator.
pub proof fn lemma_white_space_separates(c: char)
    requires
        crate::text::is_white_space(c),
    ensures
        is_separator(c),
{
}

/// The texts `es` joined by single spaces.
pub open spec fn joined(es: Seq<Seq<char>>) -> Seq<char>
    decreases es.len(),
{
    if es.len() == 0 {
        Seq::empty()
    } else if es.len() == 1 {
        es[0]
    } else {
        joined(es.drop_last()) + seq![' '] + es.last()
    }
}

/// Addresses joined by spaces are found again, each whole and in order.
pub proof fn lemma_found_in_joined(es: Seq<Seq<char>>)
    requires
        forall|k: int| 0 <= k < es.len() ==> is_email_syntax(#[trigger] es[k]),
    ensures
        found_addresses(joined(es)) == es,
    decreases es.len(),
{
    if es.len() == 0 {
        assert(matches_from(Seq::<char>::empty(), 0) =~= Seq::<(int, int)>::empty());
        assert(found_addresses(joined(es)) =~= es);
    } else if es.len() == 1 {
        assert(is_email_syntax(es[0]));
        lemma_address_found_whole(es[0]);
        assert(es =~= seq![es[0]]);
    } else {
        let init = es.drop_last();
        assert forall|k: int| 0 <= k < init.len() implies is_email_syntax(#[trigger] init[k]) by {
            assert(init[k] == es[k]);
        }
        lemma_found_in_joined(init);
        assert(is_email_syntax(es[es.len() - 1]));
        lemma_address_found_whole(es.last());
        lemma_search_splits_at_separator(joined(init), ' ', es.last());
        assert(es =~= init + seq![es.last()]);
    }
}

// ---------------------------------------------------------------------------
// The documented pattern
// ---------------------------------------------------------------------------

/// The character classes are those of the pattern
/// `(?i)[A-Z0-9._%+-]+@[A-Z0-9.-]+\.[A-Z]{2,}`, written out: every ASCII
/// letter and digit and `.`, `_`, `%`, `+`, `-` in the local part; every
/// ASCII letter and digit and `.`, `-` in the domain; every ASCII letter in
/// the top-level label; with case-blind matching, U+017F and U+212A count
/// as letters.
pub proof fn lemma_character_classes(c: char)
    ensures
        is_local_char(c) <==> ('a' <= c <= 'z' || 'A' <= c <= 'Z' || '0' <= c <= '9' || c == '.'
            || c == '_' || c == '%' || c == '+' || c == '-' || c == '\u{17f}' || c == '\u{212a}'),
        is_domain_char(c) <==> ('a' <= c <= 'z' || 'A' <= c <= 'Z' || '0' <= c <= '9' || c == '.'
            || c == '-' || c == '\u{17f}' || c == '\u{212a}'),
        is_tld_char(c) <==> ('a' <= c <= 'z' || 'A' <= c <= 'Z' || c == '\u{17f}' || c == '\u{212a}'),
        !is_local_char('@'),
{
}

/// `e` has the shape `^[A-Za-z0-9._%+-]+@[A-Za-z0-9.-]+\.[A-Za-z]{2,}$`,
/// with the classes written out character by character.
pub open spec fn has_documented_shape(e: Seq<char>) -> bool {
    exists|a: int, j: int|
        {
            &&& 0 < a
            &&& a + 1 < j
            &&& j + 2 < e.len()
            &&& e[a] == '@'
            &&& e[j] == '.'
            &&& forall|k: int|
                0 <= k < a ==> {
                    let c = #[trigger] e[k];
                    'a' <= c <= 'z' || 'A' <= c <= 'Z' || '0' <= c <= '9' || c == '.' || c == '_'
                        || c == '%' || c == '+' || c == '-'
                }
            &&& forall|k: int|
                a < k < j ==> {
                    let c = #[trigger] e[k];
                    'a' <= c <= 'z' || 'A' <= c <= 'Z' || '0' <= c <= '9' || c == '.' || c == '-'
                }
            &&& forall|k: int|
                j < k < e.len() ==> {
                    let c = #[trigger] e[k];
                    'a' <= c <= 'z' || 'A' <= c <= 'Z'
                }
        }
}

/// Every text of the documented shape is an address: it passes the syntax
/// check, and searching it finds it whole, once.
pub proof fn lemma_documented_shape_found(e: Seq<char>)
    requires
        has_documented_shape(e),
    ensures
        is_email_syntax(e),
        found_addresses(e) == seq![e],
{
    let (a, j) = choose|a: int, j: int|
        {
            &&& 0 < a
            &&& a + 1 < j
            &&& j + 2 < e.len()
            &&& e[a] == '@'
            &&& e[j] == '.'
            &&& forall|k: int|
                0 <= k < a ==> {
                    let c = #[trigger] e[k];
                    'a' <= c <= 'z' || 'A' <= c <= 'Z' || '0' <= c <= '9' || c == '.' || c == '_'
                        || c == '%' || c == '+' || c == '-'
                }
            &&& forall|k: int|
                a < k < j ==> {
                    let c = #[trigger] e[k];
                    'a' <= c <= 'z' || 'A' <= c <= 'Z' || '0' <= c <= '9' || c == '.' || c == '-'
                }
            &&& forall|k: int|
                j < k < e.len() ==> {
                    let c = #[trigger] e[k];
                    'a' <= c <= 'z' || 'A' <= c <= 'Z'
                }
        };
    assert forall|k: int| 0 <= k < a implies #[trigger] is_local_char(e[k]) by {
        lemma_character_classes(e[k]);
    }
    assert forall|k: int| a < k < j implies #[trigger] is_domain_char(e[k]) by {
        lemma_character_classes(e[k]);
    }
    assert forall|k: int| j < k < e.len() implies #[trigger] is_tld_char(e[k]) by {
        lemma_character_classes(e[k]);
    }
    assert(is_email_split(e, a, j));
    lemma_address_found_whole(e);
}

// ---------------------------------------------------------------------------
// Executable search
// ---------------------------------------------------------------------------

fn domain_run_end_exec(cs: &Vec<char>, i: usize) -> (r: usize)
    requires
        i <= cs.len(),
    ensures
        r as int == domain_run_end(cs@, i as int),
{
    let mut r = i;
    while r < cs.len() && domain_char(cs[r])
        invariant
            i <= r <= cs.len(),
            domain_run_end(cs@, i as int) == domain_run_end(cs@, r as int),
        decreases cs.len() - r,
    {
        r += 1;
    }
    r
}

fn tld_run_end_exec(cs: &Vec<char>, i: usize) -> (r: usize)
    requires
        i <= cs.len(),
    ensures
        r as int == tld_run_end(cs@, i as int),
{
    let mut r = i;
    while r < cs.len() && tld_char(cs[r])
        invariant
            i <= r <= cs.len(),
            tld_run_end(cs@, i as int) == tld_run_end(cs@, r as int),
        decreases cs.len() - r,
    {
        r += 1;
    }
    r
}

fn tld_dot_exec(cs: &Vec<char>, j: usize) -> (b: bool)
    ensures
        b == is_tld_dot(cs@, j as int),
{
    j < cs.len() && cs.len() - j > 2 && cs[j] == '.' && tld_char(cs[j + 1]) && tld_char(cs[j + 2])
}

fn last_tld_dot_exec(cs: &Vec<char>, lo: usize, hi: usize) -> (r: Option<usize>)
    ensures
        match r {
            Some(j) => last_tld_dot(cs@, lo as int, hi as int) == Some(j as int),
            None => last_tld_dot(cs@, lo as int, hi as int) is None,
        },
{
    let mut j = hi;
    while j > lo
        invariant
            last_tld_dot(cs@, lo as int, hi as int) == last_tld_dot(cs@, lo as int, j as int),
        decreases j,
    {
        if tld_dot_exec(cs, j - 1) {
            return Some(j - 1);
        }
        j -= 1;
    }
    None
}

fn local_start_exec(cs: &Vec<char>, pos: usize, a: usize) -> (r: usize)
    requires
        pos <= a <= cs.len(),
    ensures
        r as int == local_start(cs@, pos as int, a as int),
{
    let mut r = a;
    while r > pos && local_char(cs[r - 1])
        invariant
            pos <= r <= a <= cs.len(),
            local_start(cs@, pos as int, a as int) == local_start(cs@, pos as int, r as int),
        decreases r,
    {
        r -= 1;
    }
    r
}

fn match_at_exec(cs: &Vec<char>, pos: usize, a: usize) -> (r: Option<(usize, usize)>)
    requires
        pos <= a < cs.len(),
    ensures
        match r {
            Some(m) => match_at(cs@, pos as int, a as int) == Some((m.0 as int, m.1 as int)),
            None => match_at(cs@, pos as int, a as int) is None,
        },
{
    if cs[a] != '@' {
        return None;
    }
    let st = local_start_exec(cs, pos, a);
    if st >= a {
        return None;
    }
    let q = domain_run_end_exec(cs, a + 1);
    proof {
        lemma_domain_run_end(cs@, a + 1);
    }
    if q - a < 2 {
        return None;
    }
    match last_tld_dot_exec(cs, a + 2, q) {
        Some(j) => {
            proof {
                lemma_last_tld_dot(cs@, a + 2, q as int);
            }
            let e = tld_run_end_exec(cs, j + 1);
            Some((st, e))
        },
        None => None,
    }
}

/// The successive matches in `cs`, as `(start, end)` positions.
pub fn find_matches(cs: &Vec<char>) -> (out: Vec<(usize, usize)>)
    ensures
        out@.len() == matches_from(cs@, 0).len(),
        forall|k: int|
            0 <= k < out@.len() ==> (out@[k].0 as int, out@[k].1 as int) == #[trigger] matches_from(
                cs@,
                0,
            )[k],
{
    let mut out: Vec<(usize, usize)> = Vec::new();
    let mut pos: usize = 0;
    let mut a: usize = 0;
    let ghost done: Seq<(int, int)> = Seq::empty();
    while a < cs.len()
        invariant
            pos <= a <= cs.len(),
            done.len() == out@.len(),
            forall|k: int|
                0 <= k < out@.len() ==> (out@[k].0 as int, out@[k].1 as int) == #[trigger] done[k],
            matches_from(cs@, 0) == done + matches_from(cs@, pos as nat),
            first_match_from(cs@, pos as int, pos as int) == first_match_from(
                cs@,
                pos as int,
                a as int,
            ),
        decreases cs.len() - a,
    {
        match match_at_exec(cs, pos, a) {
            Some(m) => {
                proof {
                    lemma_match_at_bounds(cs@, pos as int, a as int);
                    let mm = (m.0 as int, m.1 as int);
                    assert(matches_from(cs@, pos as nat) == seq![mm] + matches_from(cs@, m.1 as nat));
                    assert(done + matches_from(cs@, pos as nat) =~= done.push(mm) + matches_from(cs@, m.1 as nat));
                    done = done.push(mm);
                }
                out.push(m);
                pos = m.1;
                a = m.1;
            },
            None => {
                a += 1;
            },
        }
    }
    proof {
        assert(matches_from(cs@, pos as nat) =~= Seq::<(int, int)>::empty());
        assert(done + matches_from(cs@, pos as nat) =~= done);
    }
    out
}

} // verus!
