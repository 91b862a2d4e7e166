use std::collections::HashSet;
use vstd::arithmetic::div_mod::{lemma_fundamental_div_mod, lemma_fundamental_div_mod_converse};
use vstd::math::min;
use vstd::prelude::*;

verus! {

/// The scalars of `s` that satisfy `keep`, in their original order.
pub open spec fn retained(s: Seq<char>, keep: spec_fn(char) -> bool) -> Seq<char>
    decreases s.len(),
{
    if s.len() == 0 {
        Seq::empty()
    } else {
        let rest = retained(s.drop_last(), keep);
        if keep(s.last()) {
            rest.push(s.last())
        } else {
            rest
        }
    }
}

/// The scalars of `s` that are not in `excluded`, in their original order.
pub open spec fn without(s: Seq<char>, excluded: Set<char>) -> Seq<char> {
    retained(s, |c: char| !excluded.contains(c))
}

/// The pieces of `parts` laid end to end with `sep` between each two neighbours.
pub open spec fn joined(parts: Seq<Seq<char>>, sep: Seq<char>) -> Seq<char>
    decreases parts.len(),
{
    if parts.len() == 0 {
        Seq::empty()
    } else if parts.len() == 1 {
        parts[0]
    } else {
        joined(parts.drop_last(), sep) + sep + parts.last()
    }
}

/// `s` cut into pieces of `width` scalars with `sep` put between them; a zero width or an
/// empty separator leaves `s` as it is.
pub open spec fn separated(s: Seq<char>, width: nat, sep: Seq<char>) -> Seq<char> {
    if width == 0 || sep.len() == 0 {
        s
    } else {
        joined(chunks(s, width), sep)
    }
}

/// Whether `c` carries the Unicode `White_Space` property.
pub uninterp spec fn is_white_space(c: char) -> bool;

/// The scalars of `s` that are not whitespace, in their original order.
pub open spec fn without_white_space(s: Seq<char>) -> Seq<char> {
    retained(s, |c: char| !is_white_space(c))
}

/// The number of pieces of at most `width` scalars that `len` scalars split into.
pub open spec fn chunk_count(len: nat, width: nat) -> nat
    recommends
        width > 0,
{
    ((len + width - 1) / (width as int)) as nat
}

/// `s` cut into consecutive pieces of `width` scalars, the last one holding what is left;
/// a width of zero leaves `s` whole.
pub open spec fn chunks(s: Seq<char>, width: nat) -> Seq<Seq<char>> {
    if width == 0 {
        seq![s]
    } else {
        Seq::new(
            chunk_count(s.len(), width),
            |k: int| s.subrange(k * width, min(k * width + width, s.len() as int)),
        )
    }
}

/// The abstract value of a list of strings.
pub open spec fn texts(v: Seq<String>) -> Seq<Seq<char>> {
    v.map_values(|t: String| t@)
}

/// Relies on `char::is_whitespace`: whether the scalar has the `White_Space` property.
#[verifier::external_body]
fn white_space(c: char) -> (r: bool)
    ensures
        r == is_white_space(c),
{
    c.is_whitespace()
}

/// Relies on `String::push`: appends one scalar at the end.
#[verifier::external_body]
fn push_scalar(s: &mut String, c: char)
    ensures
        final(s)@ == old(s)@.push(c),
{
    s.push(c)
}

/// Relies on `HashSet::contains`: whether `c` is a member of the set.
#[verifier::external_body]
fn set_has(set: &HashSet<char>, c: char) -> (r: bool)
    ensures
        r == set@.contains(c),
{
    set.contains(&c)
}

/// The scalars of `s`, in order.
pub(crate) fn scalars(s: &str) -> (r: Vec<char>)
    ensures
        r@ == s@,
{
    let mut r: Vec<char> = Vec::new();
    for c in it: s.chars()
        invariant
            it.seq() == s@,
            r@ == it.seq().take(it.index() as int),
    {
        r.push(c);
    }
    r
}

/// Returns a new string holding the scalars of `input` that are not in `chars`.
pub fn remove_chars(input: &str, chars: HashSet<char>) -> (r: String)
    ensures
        r@ == without(input@, chars@),
{
    let v = scalars(input);
    let mut r = String::new();
    let mut i: usize = 0;
    while i < v.len()
        invariant
            i <= v@.len(),
            v@ == input@,
            r@ == without(v@.take(i as int), chars@),
        decreases v.len() - i,
    {
        let c = v[i];
        assert(v@.take(i + 1).drop_last() == v@.take(i as int));
        if !set_has(&chars, c) {
            push_scalar(&mut r, c);
        }
        i += 1;
    }
    assert(v@.take(v@.len() as int) == v@);
    r
}

/// Returns a new string holding the scalars of `input` that are not whitespace.
pub fn remove_whitespace(input: &str) -> (r: String)
    ensures
        r@ == without_white_space(input@),
{
    let v = scalars(input);
    let mut r = String::new();
    let mut i: usize = 0;
    while i < v.len()
        invariant
            i <= v@.len(),
            v@ == input@,
            r@ == without_white_space(v@.take(i as int)),
        decreases v.len() - i,
    {
        let c = v[i];
        assert(v@.take(i + 1).drop_last() == v@.take(i as int));
        if !white_space(c) {
            push_scalar(&mut r, c);
        }
        i += 1;
    }
    assert(v@.take(v@.len() as int) == v@);
    r
}

/// Facts on the number of chunks: all but the last start inside the text and
/// together they reach its end.
proof fn lemma_chunk_count(len: nat, width: nat)
    requires
        width > 0,
    ensures
        chunk_count(len, width) * width >= len,
        chunk_count(len, width) * width < len + width,
        forall|k: int| 0 <= k < chunk_count(len, width) ==> #[trigger] (k * width) < len,
{
    let x = len + width - 1;
    let d = width as int;
    let q = x / d;
    lemma_fundamental_div_mod(x, d);
    assert(q * d == x - x % d) by (nonlinear_arith)
        requires
            x == d * q + x % d,
    ;
    assert forall|k: int| 0 <= k < chunk_count(len, width) implies #[trigger] (k * width) < len by {
        assert(k * d + d <= q * d) by (nonlinear_arith)
            requires
                k + 1 <= q,
                d > 0,
        ;
    }
}

/// The chunk count is `k` when `k` chunks reach the end and the last of them is not empty.
proof fn lemma_chunk_count_exact(len: nat, width: nat, k: nat)
    requires
        width > 0,
        k * width >= len,
        k > 0 ==> (k - 1) * width < len,
    ensures
        chunk_count(len, width) == k,
{
    let x = len + width - 1;
    let d = width as int;
    if k == 0 {
        lemma_fundamental_div_mod_converse(x, d, 0, x);
    } else {
        assert((k - 1) * d == k * d - d) by (nonlinear_arith);
        lemma_fundamental_div_mod_converse(x, d, k as int, x - k * d);
    }
}

/// Splits `input` into pieces of `n` scalars, the last one holding what is left.
/// With `n == 0` the result is the whole input as its only piece.
pub fn splitn(input: &str, n: usize) -> (r: Vec<String>)
    ensures
        texts(r@) == chunks(input@, n as nat),
{
    let v = scalars(input);
    if n == 0 {
        let mut whole = String::new();
        whole.append(input);
        let r = vec![whole];
        assert(texts(r@) =~= chunks(input@, 0));
        return r;
    }
    let len = v.len();
    let ghost s = v@;
    let mut r: Vec<String> = Vec::new();
    let mut i: usize = 0;
    assert(r@.len() * n == 0);
    while i < len
        invariant
            s == input@,
            v@ == s,
            len == s.len(),
            n > 0,
            i <= len,
            i == min(r@.len() * n, len as int),
            r@.len() > 0 ==> (r@.len() - 1) * n < len,
            forall|j: int|
                0 <= j < r@.len() ==> #[trigger] r@[j]@ == s.subrange(
                    j * n,
                    min(j * n + n, len as int),
                ),
        decreases len - i,
    {
        let ghost k = r@.len();
        let step: usize = if n < len - i { n } else { len - i };
        let mut piece = String::new();
        let mut t: usize = i;
        while t < i + step
            invariant
                v@ == s,
                i + step <= len,
                len == s.len(),
                i <= t <= i + step,
                piece@ == s.subrange(i as int, t as int),
            decreases i + step - t,
        {
            push_scalar(&mut piece, v[t]);
            assert(s.subrange(i as int, t + 1) == s.subrange(i as int, t as int).push(s[t as int]));
            t += 1;
        }
        assert(k * n + n == (k + 1) * n) by (nonlinear_arith);
        r.push(piece);
        i += step;
    }
    proof {
        lemma_chunk_count_exact(len as nat, n as nat, r@.len());
    }
    assert(texts(r@) =~= chunks(input@, n as nat));
    r
}

/// Cuts `input` into pieces of `n` scalars and joins them with `separator`.
/// With `n == 0` or an empty separator the input comes back as it is.
pub fn splitn_separator(input: &str, n: usize, separator: &str) -> (r: String)
    ensures
        r@ == separated(input@, n as nat, separator@),
        n == 0 ==> r@ == input@,
        separator@.len() == 0 ==> r@ == input@,
{
    let mut r = String::new();
    if n == 0 || separator.is_empty() {
        r.append(input);
        return r;
    }
    let parts = splitn(input, n);
    let ghost ps = texts(parts@);
    let mut k: usize = 0;
    while k < parts.len()
        invariant
            ps == texts(parts@),
            k <= parts@.len(),
            r@ == joined(ps.take(k as int), separator@),
        decreases parts.len() - k,
    {
        assert(ps.take(k + 1).drop_last() == ps.take(k as int));
        if k > 0 {
            r.append(separator);
        }
        r.append(parts[k].as_str());
        k += 1;
    }
    assert(ps.take(parts@.len() as int) == ps);
    r
}

/// Every scalar kept by `retained` satisfies the predicate.
pub proof fn lemma_retained_satisfy(s: Seq<char>, keep: spec_fn(char) -> bool)
    ensures
        forall|i: int| 0 <= i < retained(s, keep).len() ==> keep(#[trigger] retained(s, keep)[i]),
    decreases s.len(),
{
    if s.len() > 0 {
        let rest = retained(s.drop_last(), keep);
        lemma_retained_satisfy(s.drop_last(), keep);
        assert forall|i: int| 0 <= i < retained(s, keep).len() implies keep(
            #[trigger] retained(s, keep)[i],
        ) by {
            if i < rest.len() {
                assert(retained(s, keep)[i] == rest[i]);
            }
        }
    }
}

/// Removing no scalars gives the text back unchanged.
pub proof fn lemma_remove_nothing(s: Seq<char>)
    ensures
        without(s, Set::empty()) == s,
    decreases s.len(),
{
    if s.len() > 0 {
        lemma_remove_nothing(s.drop_last());
        assert(s.drop_last().push(s.last()) == s);
    }
}

/// No scalar of the set survives its removal.
pub proof fn lemma_removed_absent(s: Seq<char>, excluded: Set<char>)
    ensures
        forall|i: int|
            0 <= i < without(s, excluded).len() ==> !excluded.contains(
                #[trigger] without(s, excluded)[i],
            ),
{
    lemma_retained_satisfy(s, |c: char| !excluded.contains(c));
}

/// No whitespace scalar survives whitespace removal.
pub proof fn lemma_white_space_absent(s: Seq<char>)
    ensures
        forall|i: int|
            0 <= i < without_white_space(s).len() ==> !is_white_space(
                #[trigger] without_white_space(s)[i],
            ),
{
    lemma_retained_satisfy(s, |c: char| !is_white_space(c));
}

/// The first `k` chunks, laid end to end, are the first `k * width` scalars (or all of them).
proof fn lemma_chunks_prefix(s: Seq<char>, width: nat, k: int)
    requires
        width > 0,
        0 <= k <= chunks(s, width).len(),
    ensures
        chunks(s, width).take(k).flatten() == s.take(min(k * width, s.len() as int)),
    decreases k,
{
    let cs = chunks(s, width);
    let len = s.len() as int;
    let w = width as int;
    if k == 0 {
        assert(cs.take(0) == Seq::<Seq<char>>::empty());
        assert(s.take(0) == Seq::<char>::empty());
    } else {
        let j = k - 1;
        lemma_chunks_prefix(s, width, j);
        lemma_chunk_count(s.len(), width);
        assert(j * w < len);
        assert(cs.take(k) == cs.take(j).push(cs[j]));
        cs.take(j).lemma_flatten_push(cs[j]);
        assert(k * w == j * w + w) by (nonlinear_arith)
            requires
                k == j + 1,
        ;
        assert(s.take(min(j * w, len)) + cs[j] == s.take(min(k * w, len)));
    }
}

/// With a positive width the chunks, laid end to end, give the text back; each chunk but
/// the last has exactly `width` scalars and the last has between one and `width`.
pub proof fn lemma_chunks_cover(s: Seq<char>, width: nat)
    requires
        width > 0,
    ensures
        chunks(s, width).flatten() == s,
        forall|k: int|
            0 <= k < chunks(s, width).len() - 1 ==> (#[trigger] chunks(s, width)[k]).len()
                == width,
        chunks(s, width).len() > 0 ==> 1 <= chunks(s, width).last().len() <= width,
{
    let cs = chunks(s, width);
    let len = s.len() as int;
    let w = width as int;
    lemma_chunk_count(s.len(), width);
    lemma_chunks_prefix(s, width, cs.len() as int);
    assert(cs.take(cs.len() as int) == cs);
    assert(s.take(len) == s);
    assert forall|k: int| 0 <= k < cs.len() - 1 implies (#[trigger] cs[k]).len() == width by {
        assert((k + 1) * w == k * w + w) by (nonlinear_arith);
        assert((k + 1) * w < len);
    }
    if cs.len() > 0 {
        let last = cs.len() - 1;
        assert(last * w < len);
        assert(last * w + w == cs.len() * w) by (nonlinear_arith)
            requires
                last == cs.len() - 1,
        ;
    }
}

/// A zero width leaves the text whole, as the only chunk.
pub proof fn lemma_chunks_zero_width(s: Seq<char>)
    ensures
        chunks(s, 0) == seq![s],
{
}

} // verus!
