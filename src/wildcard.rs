use crate::text::scalars;
use vstd::prelude::*;

verus! {

/// The code of `c` with ASCII upper-case letters taken to lower case; other scalars keep
/// their code.
pub open spec fn folded(c: char) -> u32 {
    if 65 <= (c as u32) <= 90 {
        ((c as u32) + 32) as u32
    } else {
        c as u32
    }
}

/// Whether two scalars are the same, up to ASCII case when `ignore_casing` is set.
pub open spec fn scalars_equal(a: char, b: char, ignore_casing: bool) -> bool {
    if ignore_casing {
        folded(a) == folded(b)
    } else {
        a == b
    }
}

/// Whether `pattern` matches the whole of `input`, where `wildcard` stands for any run of
/// scalars (the empty one too), `single` for exactly one scalar, and every other scalar for
/// itself. A scalar that is both symbols acts as `wildcard`.
pub open spec fn glob(
    input: Seq<char>,
    pattern: Seq<char>,
    wildcard: char,
    single: char,
    ignore_casing: bool,
) -> bool
    decreases pattern.len(), input.len(),
{
    if pattern.len() == 0 {
        input.len() == 0
    } else if pattern.last() == wildcard {
        glob(input, pattern.drop_last(), wildcard, single, ignore_casing) || (input.len() > 0
            && glob(input.drop_last(), pattern, wildcard, single, ignore_casing))
    } else if input.len() == 0 {
        false
    } else if pattern.last() == single {
        glob(input.drop_last(), pattern.drop_last(), wildcard, single, ignore_casing)
    } else {
        scalars_equal(input.last(), pattern.last(), ignore_casing) && glob(
            input.drop_last(),
            pattern.drop_last(),
            wildcard,
            single,
            ignore_casing,
        )
    }
}

/// Whether the first `i` scalars of `input` are matched by the first `j` of `pattern`.
spec fn cell(
    input: Seq<char>,
    pattern: Seq<char>,
    wildcard: char,
    single: char,
    ignore_casing: bool,
    i: int,
    j: int,
) -> bool {
    glob(input.take(i), pattern.take(j), wildcard, single, ignore_casing)
}

/// The code of `c`, ASCII upper case taken to lower case.
fn fold(c: char) -> (r: u32)
    ensures
        r == folded(c),
{
    let v = c as u32;
    if 65 <= v && v <= 90 {
        v + 32
    } else {
        v
    }
}

/// Compares two scalars, up to ASCII case when `ignore_casing` is set.
fn same_scalar(a: char, b: char, ignore_casing: bool) -> (r: bool)
    ensures
        r == scalars_equal(a, b, ignore_casing),
{
    if ignore_casing {
        fold(a) == fold(b)
    } else {
        a == b
    }
}

/// Whether `pattern` matches the whole of `input`, with `wildcard` for any run of scalars,
/// `single_wildcard` for exactly one, and ASCII case ignored when `ignore_casing` is set.
pub fn wildcard_match(
    input: &str,
    pattern: &str,
    wildcard: &char,
    single_wildcard: &char,
    ignore_casing: bool,
) -> (r: bool)
    ensures
        r == glob(input@, pattern@, *wildcard, *single_wildcard, ignore_casing),
{
    let inp = scalars(input);
    let pat = scalars(pattern);
    let w = *wildcard;
    let sw = *single_wildcard;
    let ghost is = inp@;
    let ghost ps = pat@;
    let m = inp.len();
    let n = pat.len();
    // row[j] holds whether the first i scalars of the input are matched by the first j + 1
    // of the pattern; the column of the empty pattern is true on row 0 alone.
    let mut row: Vec<bool> = Vec::new();
    let mut left = true;
    let mut j: usize = 0;
    while j < n
        invariant
            ps == pat@,
            n == ps.len(),
            j <= n,
            row@.len() == j,
            left == cell(is, ps, w, sw, ignore_casing, 0, j as int),
            forall|t: int|
                0 <= t < j ==> #[trigger] row@[t] == cell(is, ps, w, sw, ignore_casing, 0, t + 1),
        decreases n - j,
    {
        assert(ps.take(j + 1).drop_last() == ps.take(j as int));
        assert(is.take(0).len() == 0);
        let v = pat[j] == w && left;
        row.push(v);
        left = v;
        j += 1;
    }
    let mut i: usize = 0;
    while i < m
        invariant
            is == inp@,
            ps == pat@,
            m == is.len(),
            n == ps.len(),
            i <= m,
            row@.len() == n,
            forall|t: int|
                0 <= t < n ==> #[trigger] row@[t] == cell(is, ps, w, sw, ignore_casing, i as int, t + 1),
        decreases m - i,
    {
        let c = inp[i];
        let mut next: Vec<bool> = Vec::new();
        let mut left = false;
        assert(ps.take(0).len() == 0);
        let mut j: usize = 0;
        while j < n
            invariant
                is == inp@,
                ps == pat@,
                m == is.len(),
                n == ps.len(),
                i < m,
                c == is[i as int],
                j <= n,
                row@.len() == n,
                forall|t: int|
                    0 <= t < n ==> #[trigger] row@[t] == cell(is, ps, w, sw, ignore_casing, i as int, t + 1),
                next@.len() == j,
                left == cell(is, ps, w, sw, ignore_casing, i + 1, j as int),
                forall|t: int|
                    0 <= t < j ==> #[trigger] next@[t] == cell(is, ps, w, sw, ignore_casing, i + 1, t + 1),
            decreases n - j,
        {
            assert(ps.take(j + 1).drop_last() == ps.take(j as int));
            assert(is.take(i + 1).drop_last() == is.take(i as int));
            let diag = if j == 0 {
                i == 0
            } else {
                row[j - 1]
            };
            assert(diag == cell(is, ps, w, sw, ignore_casing, i as int, j as int));
            let p = pat[j];
            let v = if p == w {
                left || row[j]
            } else if p == sw {
                diag
            } else {
                diag && same_scalar(c, p, ignore_casing)
            };
            next.push(v);
            left = v;
            j += 1;
        }
        row = next;
        i += 1;
    }
    assert(is.take(m as int) == is);
    assert(ps.take(n as int) == ps);
    if n == 0 {
        m == 0
    } else {
        row[n - 1]
    }
}

/// Matching with `*` for any run of scalars and `?` for exactly one, case-sensitive.
pub fn wildcard_match_default(input: &str, pattern: &str) -> (r: bool)
    ensures
        r == glob(input@, pattern@, '*', '?', false),
{
    wildcard_match(input, pattern, &'*', &'?', false)
}

/// The empty input is matched exactly by the patterns made of nothing but the multi-scalar
/// wildcard (the empty pattern among them).
pub proof fn lemma_empty_input(pattern: Seq<char>, wildcard: char, single: char, ignore_casing: bool)
    ensures
        glob(Seq::empty(), pattern, wildcard, single, ignore_casing) <==> (forall|k: int|
            0 <= k < pattern.len() ==> pattern[k] == wildcard),
    decreases pattern.len(),
{
    if pattern.len() > 0 {
        let shorter = pattern.drop_last();
        lemma_empty_input(shorter, wildcard, single, ignore_casing);
        if forall|k: int| 0 <= k < pattern.len() ==> pattern[k] == wildcard {
            assert forall|k: int| 0 <= k < shorter.len() implies shorter[k] == wildcard by {
                assert(shorter[k] == pattern[k]);
            }
        } else if pattern.last() == wildcard {
            let k = choose|k: int| 0 <= k < pattern.len() && pattern[k] != wildcard;
            assert(shorter[k] == pattern[k]);
        }
    }
}

/// A pattern without wildcard symbols matches exactly the inputs of its length that agree with
/// it scalar by scalar, up to ASCII case when `ignore_casing` is set.
pub proof fn lemma_literal_pattern(
    input: Seq<char>,
    pattern: Seq<char>,
    wildcard: char,
    single: char,
    ignore_casing: bool,
)
    requires
        forall|k: int| 0 <= k < pattern.len() ==> pattern[k] != wildcard && pattern[k] != single,
    ensures
        glob(input, pattern, wildcard, single, ignore_casing) <==> (input.len() == pattern.len()
            && forall|k: int|
            0 <= k < input.len() ==> scalars_equal(
                #[trigger] input[k],
                pattern[k],
                ignore_casing,
            )),
    decreases pattern.len(),
{
    if pattern.len() > 0 && input.len() > 0 {
        let (a, b) = (input.drop_last(), pattern.drop_last());
        lemma_literal_pattern(a, b, wildcard, single, ignore_casing);
        let n = input.len() - 1;
        if input.len() == pattern.len() && forall|k: int|
            0 <= k < input.len() ==> scalars_equal(#[trigger] input[k], pattern[k], ignore_casing) {
            assert forall|k: int| 0 <= k < a.len() implies scalars_equal(
                #[trigger] a[k],
                b[k],
                ignore_casing,
            ) by {
                assert(a[k] == input[k] && b[k] == pattern[k]);
            }
            assert(scalars_equal(input[n], pattern[n], ignore_casing));
        } else if glob(input, pattern, wildcard, single, ignore_casing) {
            assert forall|k: int| 0 <= k < input.len() implies scalars_equal(
                #[trigger] input[k],
                pattern[k],
                ignore_casing,
            ) by {
                if k < n {
                    assert(a[k] == input[k] && b[k] == pattern[k]);
                }
            }
        }
    } else if pattern.len() > 0 {
        assert(pattern.last() == pattern[pattern.len() - 1]);
    }
}

} // verus!
