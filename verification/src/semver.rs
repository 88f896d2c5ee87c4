//! Three-component semantic versions and the version-constraint grammar used
//! by plugin manifests: exact match, caret (`^`), tilde (`~`), and `>=`.

use vstd::prelude::*;

verus! {

/// A parsed three-component semantic version.
#[derive(Clone, Copy, PartialEq, Eq, Structural, Debug)]
pub struct Version {
    pub major: u32,
    pub minor: u32,
    pub patch: u32,
}

/// A decimal digit character.
pub open spec fn is_digit(c: char) -> bool {
    '0' <= c && c <= '9'
}

/// Numeric value of a digit character.
pub open spec fn digit_val(c: char) -> nat {
    ((c as int) - 48) as nat
}

/// Every character of `s` is a decimal digit.
pub open spec fn all_digits(s: Seq<char>) -> bool {
    forall|i: int| 0 <= i < s.len() ==> is_digit(#[trigger] s[i])
}

/// The number denoted by a sequence of digit characters, most significant first.
pub open spec fn digits_value(s: Seq<char>) -> nat
    decreases s.len(),
{
    if s.len() == 0 {
        0
    } else {
        digits_value(s.drop_last()) * 10 + digit_val(s.last())
    }
}

/// `s` is a numeric component: nonempty, all digits, and within `u32` range.
pub open spec fn is_u32_digits(s: Seq<char>) -> bool {
    s.len() > 0 && all_digits(s) && digits_value(s) <= u32::MAX
}

/// Index of the first `'.'` in `s`, or `s.len()` if there is none.
pub open spec fn first_dot(s: Seq<char>) -> int
    decreases s.len(),
{
    if s.len() == 0 {
        0
    } else if s[0] == '.' {
        0
    } else {
        1 + first_dot(s.skip(1))
    }
}

/// The three dot-separated fields of `s`: everything before the first dot,
/// between the first and second dots, and after the second dot.
pub open spec fn sem_fields(s: Seq<char>) -> (Seq<char>, Seq<char>, Seq<char>) {
    let i = first_dot(s);
    let rest = s.skip(i + 1);
    let j = first_dot(rest);
    (s.take(i), rest.take(j), rest.skip(j + 1))
}

/// `s` is a valid version string: exactly three dot-separated numeric
/// components (the third field being all digits rules out further dots).
pub open spec fn sem_valid(s: Seq<char>) -> bool {
    first_dot(s) < s.len() && first_dot(s.skip(first_dot(s) + 1)) < s.skip(
        first_dot(s) + 1,
    ).len() && is_u32_digits(sem_fields(s).0) && is_u32_digits(sem_fields(s).1) && is_u32_digits(
        sem_fields(s).2,
    )
}

/// The (major, minor, patch) triple denoted by a valid version string.
pub open spec fn sem_version(s: Seq<char>) -> (nat, nat, nat) {
    (
        digits_value(sem_fields(s).0),
        digits_value(sem_fields(s).1),
        digits_value(sem_fields(s).2),
    )
}

/// Caret constraint: same major, and (minor, patch) at least the requested pair.
pub open spec fn caret_ok(v: Seq<char>, r: Seq<char>) -> bool {
    sem_valid(v) && sem_valid(r) && sem_version(v).0 == sem_version(r).0 && (sem_version(v).1
        > sem_version(r).1 || (sem_version(v).1 == sem_version(r).1 && sem_version(v).2
        >= sem_version(r).2))
}

/// Tilde constraint: same major and minor, patch at least the requested one.
pub open spec fn tilde_ok(v: Seq<char>, r: Seq<char>) -> bool {
    sem_valid(v) && sem_valid(r) && sem_version(v).0 == sem_version(r).0 && sem_version(v).1
        == sem_version(r).1 && sem_version(v).2 >= sem_version(r).2
}

/// `>=` constraint: numeric triple comparison, lexicographic.
pub open spec fn ge_ok(v: Seq<char>, r: Seq<char>) -> bool {
    sem_valid(v) && sem_valid(r) && (sem_version(v).0 > sem_version(r).0 || (sem_version(v).0
        == sem_version(r).0 && (sem_version(v).1 > sem_version(r).1 || (sem_version(v).1
        == sem_version(r).1 && sem_version(v).2 >= sem_version(r).2))))
}

/// The constraint grammar: a `^`, `~` or `>=` prefix selects its comparator;
/// anything else is an exact (character for character) match.
pub open spec fn spec_satisfies(v: Seq<char>, req: Seq<char>) -> bool {
    if req.len() >= 1 && req[0] == '^' {
        caret_ok(v, req.skip(1))
    } else if req.len() >= 1 && req[0] == '~' {
        tilde_ok(v, req.skip(1))
    } else if req.len() >= 2 && req[0] == '>' && req[1] == '=' {
        ge_ok(v, req.skip(2))
    } else {
        v == req
    }
}

/// `first_dot` is the index of the first dot: in range, a dot when within
/// range, and preceded only by non-dots.
pub proof fn lemma_first_dot(s: Seq<char>)
    ensures
        0 <= first_dot(s) <= s.len(),
        first_dot(s) < s.len() ==> s[first_dot(s)] == '.',
        forall|k: int| 0 <= k < first_dot(s) ==> s[k] != '.',
    decreases s.len(),
{
    if s.len() > 0 && s[0] != '.' {
        lemma_first_dot(s.skip(1));
        assert forall|k: int| 0 <= k < first_dot(s) implies s[k] != '.' by {
            if k > 0 {
                assert(s.skip(1)[k - 1] == s[k]);
            }
        }
    }
}

/// A longer digit string denotes at least as large a number as its prefix.
proof fn lemma_digits_value_prefix_le(s: Seq<char>, k: int)
    requires
        0 <= k <= s.len(),
    ensures
        digits_value(s.take(k)) <= digits_value(s),
    decreases s.len() - k,
{
    if k < s.len() {
        lemma_digits_value_prefix_le(s, k + 1);
        assert(s.take(k + 1).drop_last() =~= s.take(k));
        assert(digits_value(s.take(k + 1)) == digits_value(s.take(k)) * 10 + digit_val(
            s.take(k + 1).last(),
        ));
        assert(digits_value(s.take(k)) <= digits_value(s.take(k)) * 10);
    } else {
        assert(s.take(k) =~= s);
    }
}

/// Parse a nonempty all-digit string as a `u32`; `None` on any other input.
pub fn parse_u32_digits(s: &str) -> (r: Option<u32>)
    ensures
        r is Some <==> is_u32_digits(s@),
        r is Some ==> r->0 as nat == digits_value(s@),
{
    let n: usize = s.unicode_len();
    if n == 0 {
        return None;
    }
    let mut acc: u64 = 0;
    let mut i: usize = 0;
    while i < n
        invariant
            0 <= i <= n,
            n == s@.len(),
            acc == digits_value(s@.take(i as int)),
            acc <= u32::MAX,
            forall|k: int| 0 <= k < i ==> is_digit(#[trigger] s@[k]),
        decreases n - i,
    {
        let c = s.get_char(i);
        if !('0' <= c && c <= '9') {
            assert(!all_digits(s@));
            return None;
        }
        let d: u64 = (c as u32 as u64) - 48;
        acc = acc * 10 + d;
        proof {
            assert(s@.take(i + 1).drop_last() =~= s@.take(i as int));
            assert(s@.take(i + 1).last() == s@[i as int]);
        }
        i = i + 1;
        if acc > u32::MAX as u64 {
            proof {
                lemma_digits_value_prefix_le(s@, i as int);
                assert(s@.take(i as int).len() > 0);
            }
            return None;
        }
    }
    proof {
        assert(s@.take(n as int) =~= s@);
    }
    Some(acc as u32)
}

/// Find the first `'.'` at or after `from`; returns `s.len()` if none.
fn find_dot_from(s: &str, from: usize) -> (r: usize)
    requires
        from <= s@.len(),
    ensures
        from <= r <= s@.len(),
        r < s@.len() ==> s@[r as int] == '.',
        forall|k: int| from <= k < r ==> s@[k] != '.',
{
    let n: usize = s.unicode_len();
    let mut i: usize = from;
    while i < n
        invariant
            from <= i <= n,
            n == s@.len(),
            forall|k: int| from <= k < i ==> s@[k] != '.',
        decreases n - i,
    {
        if s.get_char(i) == '.' {
            return i;
        }
        i = i + 1;
    }
    n
}

/// `first_dot(s) == i` exactly when `i` is a dot preceded only by non-dots,
/// or `i == s.len()` and `s` has no dot at all.
proof fn lemma_first_dot_is(s: Seq<char>, i: int)
    requires
        0 <= i <= s.len(),
        i < s.len() ==> s[i] == '.',
        forall|k: int| 0 <= k < i ==> s[k] != '.',
    ensures
        first_dot(s) == i,
{
    lemma_first_dot(s);
    if first_dot(s) < i {
        assert(s[first_dot(s)] == '.');
    } else if i < first_dot(s) {
        assert(s[i] != '.');
    }
}

/// Parse a full `major.minor.patch` version string.
pub fn parse_version(s: &str) -> (r: Option<Version>)
    ensures
        r is Some <==> sem_valid(s@),
        r is Some ==> r->0.major as nat == sem_version(s@).0,
        r is Some ==> r->0.minor as nat == sem_version(s@).1,
        r is Some ==> r->0.patch as nat == sem_version(s@).2,
{
    let n: usize = s.unicode_len();
    let i = find_dot_from(s, 0);
    proof {
        lemma_first_dot_is(s@, i as int);
    }
    if i == n {
        return None;
    }
    let rest = s.substring_char(i + 1, n);
    let j = find_dot_from(rest, 0);
    proof {
        lemma_first_dot_is(rest@, j as int);
    }
    if j == rest.unicode_len() {
        return None;
    }
    let f0 = s.substring_char(0, i);
    let f1 = rest.substring_char(0, j);
    let f2 = rest.substring_char(j + 1, rest.unicode_len());
    proof {
        assert(f0@ =~= sem_fields(s@).0);
        assert(f1@ =~= sem_fields(s@).1);
        assert(f2@ =~= sem_fields(s@).2);
    }
    let major = match parse_u32_digits(f0) {
        Some(x) => x,
        None => {
            return None;
        },
    };
    let minor = match parse_u32_digits(f1) {
        Some(x) => x,
        None => {
            return None;
        },
    };
    let patch = match parse_u32_digits(f2) {
        Some(x) => x,
        None => {
            return None;
        },
    };
    Some(Version { major, minor, patch })
}

/// A version string is valid when it parses as three numeric components.
pub fn is_valid_semver(version: &str) -> (r: bool)
    ensures
        r == sem_valid(version@),
{
    parse_version(version).is_some()
}

/// Numeric triple comparison, used for `>=` constraints and for checking the
/// host version against a manifest's minimum: true when both strings are
/// valid versions and `a`'s triple is lexicographically at least `b`'s.
pub fn version_gte(a: &str, b: &str) -> (r: bool)
    ensures
        r == ge_ok(a@, b@),
{
    let va = match parse_version(a) {
        Some(v) => v,
        None => {
            return false;
        },
    };
    let vb = match parse_version(b) {
        Some(v) => v,
        None => {
            return false;
        },
    };
    va.major > vb.major || (va.major == vb.major && (va.minor > vb.minor || (va.minor == vb.minor
        && va.patch >= vb.patch)))
}

/// Does installed `version` satisfy the constraint `requirement`?
pub fn version_satisfies(version: &str, requirement: &str) -> (r: bool)
    ensures
        r == spec_satisfies(version@, requirement@),
{
    let rn: usize = requirement.unicode_len();
    if rn >= 1 && requirement.get_char(0) == '^' {
        let base = requirement.substring_char(1, rn);
        proof {
            assert(base@ =~= requirement@.skip(1));
        }
        let v = match parse_version(version) {
            Some(v) => v,
            None => {
                return false;
            },
        };
        let r = match parse_version(base) {
            Some(v) => v,
            None => {
                return false;
            },
        };
        v.major == r.major && (v.minor > r.minor || (v.minor == r.minor && v.patch >= r.patch))
    } else if rn >= 1 && requirement.get_char(0) == '~' {
        let base = requirement.substring_char(1, rn);
        proof {
            assert(base@ =~= requirement@.skip(1));
        }
        let v = match parse_version(version) {
            Some(v) => v,
            None => {
                return false;
            },
        };
        let r = match parse_version(base) {
            Some(v) => v,
            None => {
                return false;
            },
        };
        v.major == r.major && v.minor == r.minor && v.patch >= r.patch
    } else if rn >= 2 && requirement.get_char(0) == '>' && requirement.get_char(1) == '=' {
        let base = requirement.substring_char(2, rn);
        proof {
            assert(base@ =~= requirement@.skip(2));
        }
        version_gte(version, base)
    } else {
        let v = version.to_owned();
        let r = requirement.to_owned();
        v == r
    }
}

} // verus!
