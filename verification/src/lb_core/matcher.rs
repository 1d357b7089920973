//! Path matching: the radix-tree router and what it promises of plain patterns.

use matchit::Router;
use vstd::prelude::*;

use crate::text::{begins_with, ends_with};

verus! {

/// `matchit::Router`, taken as it is; [`router_attempts`] names what one was offered.
#[verifier::external_type_specification]
#[verifier::external_body]
#[verifier::reject_recursive_types(T)]
pub struct ExRouter<T>(Router<T>);

/// `matchit::InsertError`, taken as it is.
#[verifier::external_type_specification]
#[verifier::external_body]
pub struct ExInsertError(matchit::InsertError);

/// The patterns that a router was offered, with the value that came with each,
/// in order, accepted or not.
pub uninterp spec fn router_attempts(router: Router<usize>) -> Seq<(Seq<char>, usize)>;

/// Whether `Router::insert` accepts a pattern after the given ones were offered.
pub uninterp spec fn pattern_accepted(before: Seq<Seq<char>>, pattern: Seq<char>) -> bool;

/// Which of the patterns that were offered `Router::at` matches with a path.
pub uninterp spec fn pattern_matched(patterns: Seq<Seq<char>>, path: Seq<char>) -> Option<int>;

/// The most patterns that a router is offered; it counts them in 32 bits.
pub const MAX_PATTERNS: usize = 0xffff_fffe;

/// The most parameters that a pattern may hold; the router names them by letter.
pub const MAX_PARAMS: usize = 25;

/// The wildcard behind a prefix.
pub open spec fn catch_all() -> Seq<char> {
    "{*catchall}"@
}

/// The patterns of a list of attempts.
pub open spec fn patterns_of(attempts: Seq<(Seq<char>, usize)>) -> Seq<Seq<char>> {
    Seq::new(attempts.len(), |i: int| attempts[i].0)
}

/// How many braces of a pattern may open a parameter. A doubled brace stands for
/// itself, and the wildcard is no parameter. A doubled brace right behind a single
/// closing one may be taken for a parameter all the same: the router loses track of it
/// where it shortens the name before it.
pub open spec fn param_count(pattern: Seq<char>) -> int
    decreases pattern.len(),
{
    if pattern.len() == 0 {
        0
    } else if pattern.len() > 1 && pattern[0] == pattern[1] && (pattern[0] == '{' || pattern[0]
        == '}') {
        param_count(pattern.skip(2))
    } else if pattern.len() > 2 && pattern[0] == '}' && pattern[1] == '{' && pattern[2] == '{' {
        1 + param_count(pattern.skip(3))
    } else {
        let here = if pattern[0] == '{' && !(pattern.len() > 1 && pattern[1] == '*') {
            1int
        } else {
            0int
        };
        here + param_count(pattern.skip(1))
    }
}

/// Whether a text holds a brace.
pub open spec fn has_brace(s: Seq<char>) -> bool {
    s.contains('{') || s.contains('}')
}

/// Whether a pattern ends in the wildcard, with something before it.
pub open spec fn is_prefix_pattern(pattern: Seq<char>) -> bool {
    ends_with(pattern, catch_all()) && pattern.len() > catch_all().len()
}

/// How many characters of a pattern stand for themselves.
pub open spec fn reach(pattern: Seq<char>) -> int {
    if is_prefix_pattern(pattern) {
        pattern.len() - catch_all().len()
    } else {
        pattern.len() as int
    }
}

/// Whether a pattern consists of literal text, with at most the wildcard at its
/// end.
pub open spec fn is_plain(pattern: Seq<char>) -> bool {
    pattern.len() > 0 && !has_brace(pattern.take(reach(pattern)))
}

/// Whether a plain pattern matches a path: literal text matches itself, and the
/// wildcard at least one character.
pub open spec fn covers(pattern: Seq<char>, path: Seq<char>) -> bool {
    if is_prefix_pattern(pattern) {
        begins_with(path, pattern.take(reach(pattern))) && path.len() > reach(pattern)
    } else {
        path == pattern
    }
}

/// Whether all patterns are plain.
pub open spec fn all_plain(patterns: Seq<Seq<char>>) -> bool {
    forall|i: int| 0 <= i < patterns.len() ==> is_plain(#[trigger] patterns[i])
}

/// Whether the `i`th pattern is the one that a path belongs to: it matches, no
/// other that matches reaches further, and it was there before its equals.
pub open spec fn is_best(patterns: Seq<Seq<char>>, path: Seq<char>, i: int) -> bool {
    &&& 0 <= i < patterns.len()
    &&& covers(patterns[i], path)
    &&& forall|j: int|
        0 <= j < patterns.len() && covers(#[trigger] patterns[j], path) ==> reach(patterns[j])
            < reach(patterns[i]) || (reach(patterns[j]) == reach(patterns[i]) && i <= j)
}

/// `Router::new` makes a router without patterns.
#[verifier::external_body]
pub(crate) fn new_router() -> (r: Router<usize>)
    ensures
        router_attempts(r) == Seq::<(Seq<char>, usize)>::empty(),
{
    Router::new()
}

/// `Router::insert` offers a pattern and says whether the router took it; what it
/// answers depends on the patterns offered before. A pattern of literal text with
/// at most the wildcard at its end is taken unless it was offered before. It
/// panics on a pattern of more parameters than letters, and counts patterns in 32
/// bits; both are ruled out.
#[verifier::external_body]
pub(crate) fn router_insert(router: &mut Router<usize>, pattern: &str, value: usize) -> (r: bool)
    requires
        param_count(pattern@) <= MAX_PARAMS,
        router_attempts(*old(router)).len() < MAX_PATTERNS,
    ensures
        router_attempts(*final(router)) == router_attempts(*old(router)).push((pattern@, value)),
        r == pattern_accepted(patterns_of(router_attempts(*old(router))), pattern@),
        all_plain(patterns_of(router_attempts(*old(router)))) && is_plain(pattern@) ==> r
            == !patterns_of(router_attempts(*old(router))).contains(pattern@),
{
    router.insert(pattern, value).is_ok()
}

/// `Router::at` gives the value of the pattern that matches a path, if any. Of
/// patterns that are literal text with at most the wildcard at their end, it
/// matches literal text with itself and the wildcard with one or more characters,
/// prefers the pattern that reaches furthest, and keeps to the one that was
/// offered first where the same pattern was offered more than once.
#[verifier::external_body]
pub(crate) fn router_at(router: &Router<usize>, path: &str) -> (r: Option<usize>)
    ensures
        r is Some <==> pattern_matched(patterns_of(router_attempts(*router)), path@) is Some,
        r matches Some(value) ==> {
            let i = pattern_matched(patterns_of(router_attempts(*router)), path@)->0;
            0 <= i < router_attempts(*router).len() && value == router_attempts(*router)[i].1
        },
        all_plain(patterns_of(router_attempts(*router))) ==> match r {
            None => forall|i: int|
                0 <= i < router_attempts(*router).len() ==> !covers(
                    (#[trigger] router_attempts(*router)[i]).0,
                    path@,
                ),
            Some(value) => exists|i: int|
                #[trigger] is_best(patterns_of(router_attempts(*router)), path@, i) && value
                    == router_attempts(*router)[i].1,
        },
{
    router.at(path).ok().map(|found| *found.value)
}

/// A path belongs to at most one pattern.
pub proof fn lemma_best_is_unique(patterns: Seq<Seq<char>>, path: Seq<char>, i: int, j: int)
    requires
        is_best(patterns, path, i),
        is_best(patterns, path, j),
    ensures
        i == j,
{
    assert(covers(patterns[i], path));
    assert(covers(patterns[j], path));
}

/// If any pattern matches a path, one of them is the one that it belongs to.
pub proof fn lemma_best_exists(patterns: Seq<Seq<char>>, path: Seq<char>, k: int) -> (i: int)
    requires
        0 <= k < patterns.len(),
        covers(patterns[k], path),
    ensures
        is_best(patterns, path, i),
        reach(patterns[i]) >= reach(patterns[k]),
{
    let i = lemma_best_among(patterns, path, k, patterns.len() as int);
    assert(covers(patterns[k], path));
    i
}

proof fn lemma_best_among(patterns: Seq<Seq<char>>, path: Seq<char>, k: int, n: int) -> (i: int)
    requires
        0 <= k < n <= patterns.len(),
        covers(patterns[k], path),
    ensures
        is_best(patterns.take(n), path, i),
        n == patterns.len() ==> is_best(patterns, path, i),
    decreases n,
{
    let part = patterns.take(n);
    let last = n - 1;
    let i = if k < last {
        let b = lemma_best_among(patterns, path, k, last);
        assert(forall|j: int| 0 <= j < last ==> part[j] == patterns.take(last)[j]);
        if covers(patterns[last], path) && reach(patterns[last]) > reach(patterns[b]) {
            last
        } else {
            b
        }
    } else if exists|m: int| 0 <= m < last && covers(#[trigger] patterns[m], path) {
        let m = choose|m: int| 0 <= m < last && covers(#[trigger] patterns[m], path);
        let b = lemma_best_among(patterns, path, m, last);
        assert(forall|j: int| 0 <= j < last ==> part[j] == patterns.take(last)[j]);
        if reach(patterns[last]) > reach(patterns[b]) {
            last
        } else {
            b
        }
    } else {
        last
    };
    assert(part[last] == patterns[last]);
    assert(is_best(part, path, i)) by {
        assert forall|j: int| 0 <= j < part.len() && covers(#[trigger] part[j], path) implies reach(
            part[j],
        ) < reach(part[i]) || (reach(part[j]) == reach(part[i]) && i <= j) by {
            assert(part[j] == patterns[j]);
            if j < last {
                assert(patterns.take(last)[j] == patterns[j]);
            }
        }
    }
    if n == patterns.len() {
        assert(part =~= patterns);
    }
    i
}

} // verus!
