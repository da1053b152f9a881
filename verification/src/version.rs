//! Version order: a version is split at `.`, and its parts are compared as
//! numbers from the left (a part's number is its leading ASCII digits; a
//! missing part counts as 0), so `1.10.0` is newer than `1.9`.

use vstd::prelude::*;
use crate::text::{
    chars_of, find_first, lemma_find_char_concat, lemma_find_first, lemma_occurs_single, sub_chars,
};
use crate::types::{chars_less, chars_lt};

verus! {

/// The pieces of `s` between `.` separators, empty pieces included.
pub open spec fn split_dots(s: Seq<char>) -> Seq<Seq<char>>
    decreases s.len(),
{
    match find_first(s, seq!['.']) {
        Some(p) => {
            proof {
                lemma_find_first(s, seq!['.']);
            }
            seq![s.take(p)] + split_dots(s.skip(p + 1))
        },
        None => seq![s],
    }
}

/// A text without `.` is a single piece.
proof fn lemma_split_dots_single(s: Seq<char>)
    requires
        !s.contains('.'),
    ensures
        split_dots(s) == seq![s],
{
    lemma_find_first(s, seq!['.']);
    if find_first(s, seq!['.']) is Some {
        let p = find_first(s, seq!['.'])->0;
        lemma_occurs_single(s, '.', p);
    }
}

/// Splitting `x.y` gives the pieces of `x` followed by those of `y`.
proof fn lemma_split_dots_concat(x: Seq<char>, y: Seq<char>)
    ensures
        split_dots(x + seq!['.'] + y) == split_dots(x) + split_dots(y),
    decreases x.len(),
{
    let xy = x + seq!['.'] + y;
    assert(x + seq!['.'] + y == x + (seq!['.'] + y));
    lemma_find_char_concat(x, seq!['.'] + y, '.');
    lemma_find_first(x, seq!['.']);
    match find_first(x, seq!['.']) {
        Some(p) => {
            assert(find_first(xy, seq!['.']) == Some(p));
            assert(xy.take(p) == x.take(p));
            assert(xy.skip(p + 1) == x.skip(p + 1) + seq!['.'] + y);
            lemma_split_dots_concat(x.skip(p + 1), y);
        },
        None => {
            assert(find_first(xy, seq!['.']) == Some(x.len() as int));
            assert(xy.take(x.len() as int) == x);
            assert(xy.skip(x.len() + 1int) == y);
        },
    }
}

/// A sequence of character vectors, taken by their characters.
pub open spec fn pieces_view(v: Seq<Vec<char>>) -> Seq<Seq<char>> {
    v.map_values(|x: Vec<char>| x@)
}

/// The pieces of `s` between `.` separators.
fn split_dot_pieces(s: &[char]) -> (res: Vec<Vec<char>>)
    ensures
        pieces_view(res@) == split_dots(s@),
{
    let mut pieces: Vec<Vec<char>> = Vec::new();
    let mut cur: Vec<char> = Vec::new();
    let mut i: usize = 0;
    assert(cur@ + s@.skip(0) =~= s@);
    assert(pieces_view(pieces@) =~= Seq::<Seq<char>>::empty());
    while i < s.len()
        invariant
            i <= s.len(),
            !cur@.contains('.'),
            split_dots(s@) == pieces_view(pieces@) + split_dots(cur@ + s@.skip(i as int)),
        decreases s.len() - i,
    {
        let c = s[i];
        if c == '.' {
            proof {
                assert(cur@ + s@.skip(i as int) =~= cur@ + seq!['.'] + s@.skip(i + 1));
                lemma_split_dots_concat(cur@, s@.skip(i + 1));
                lemma_split_dots_single(cur@);
            }
            let ghost old_pieces = pieces@;
            let done = cur;
            pieces.push(done);
            cur = Vec::new();
            assert(pieces_view(pieces@) =~= pieces_view(old_pieces).push(done@));
            assert(cur@ + s@.skip(i + 1) =~= s@.skip(i + 1));
        } else {
            let ghost old_cur = cur@;
            cur.push(c);
            assert(cur@ + s@.skip(i + 1) =~= old_cur + s@.skip(i as int));
            assert forall|j: int| 0 <= j < cur@.len() implies cur@[j] != '.' by {
                if j < old_cur.len() {
                    assert(cur@[j] == old_cur[j]);
                }
            }
        }
        i = i + 1;
    }
    proof {
        assert(cur@ + s@.skip(i as int) =~= cur@);
        lemma_split_dots_single(cur@);
    }
    let ghost old_pieces = pieces@;
    let last = cur;
    pieces.push(last);
    assert(pieces_view(pieces@) =~= pieces_view(old_pieces).push(last@));
    pieces
}

/// An ASCII digit.
pub open spec fn is_digit(c: char) -> bool {
    '0' <= c <= '9'
}

/// The ASCII digits that `p` starts with.
pub open spec fn leading_digits(p: Seq<char>) -> Seq<char>
    decreases p.len(),
{
    if p.len() > 0 && is_digit(p[0]) {
        seq![p[0]] + leading_digits(p.drop_first())
    } else {
        seq![]
    }
}

/// `d` without its leading zeros.
pub open spec fn strip_zeros(d: Seq<char>) -> Seq<char>
    decreases d.len(),
{
    if d.len() > 0 && d[0] == '0' {
        strip_zeros(d.drop_first())
    } else {
        d
    }
}

/// The number that the digits `a` write is greater than the one `b` writes:
/// without leading zeros, the longer is greater, and among equally long ones
/// the first differing digit decides.
pub open spec fn num_gt(a: Seq<char>, b: Seq<char>) -> bool {
    let x = strip_zeros(a);
    let y = strip_zeros(b);
    x.len() > y.len() || (x.len() == y.len() && chars_lt(y, x))
}

/// The digits of part `k` of a split version; none when it has no such part.
pub open spec fn part(ps: Seq<Seq<char>>, k: int) -> Seq<char> {
    if 0 <= k < ps.len() {
        leading_digits(ps[k])
    } else {
        seq![]
    }
}

/// From part `k` on, the version split as `x` is newer than the one split
/// as `y`.
pub open spec fn parts_gt(x: Seq<Seq<char>>, y: Seq<Seq<char>>, k: int) -> bool
    decreases x.len() + y.len() - k,
{
    if k < 0 || (k >= x.len() && k >= y.len()) {
        false
    } else if num_gt(part(x, k), part(y, k)) {
        true
    } else if num_gt(part(y, k), part(x, k)) {
        false
    } else {
        parts_gt(x, y, k + 1)
    }
}

/// Version `a` is newer than version `b`.
pub open spec fn version_newer(a: Seq<char>, b: Seq<char>) -> bool {
    parts_gt(split_dots(a), split_dots(b), 0)
}

/// Every character of `d` is an ASCII digit.
pub open spec fn all_digits(d: Seq<char>) -> bool {
    forall|i: int| 0 <= i < d.len() ==> is_digit(#[trigger] d[i])
}

/// `10` to the power `n`.
pub open spec fn pow10(n: nat) -> nat
    decreases n,
{
    if n == 0 {
        1
    } else {
        10 * pow10((n - 1) as nat)
    }
}

/// The value of the digit `c`.
pub open spec fn digit_value(c: char) -> int {
    (c as u32) as int - ('0' as u32) as int
}

/// The number that the decimal digits `d` write.
pub open spec fn digits_value(d: Seq<char>) -> int
    decreases d.len(),
{
    if d.len() == 0 {
        0
    } else {
        digit_value(d[0]) * pow10((d.len() - 1) as nat) + digits_value(d.drop_first())
    }
}

proof fn lemma_pow10_mono(m: nat, n: nat)
    requires
        m <= n,
    ensures
        1 <= pow10(m) <= pow10(n),
    decreases n,
{
    if n > 0 {
        if m < n {
            lemma_pow10_mono(m, (n - 1) as nat);
        } else {
            lemma_pow10_mono((n - 1) as nat, (n - 1) as nat);
        }
    }
}

/// The number that `d` writes lies below `10^len`, and at or above
/// `10^(len-1)` when `d` starts with a digit other than `0`.
proof fn lemma_digits_bounds(d: Seq<char>)
    requires
        all_digits(d),
    ensures
        0 <= digits_value(d) < pow10(d.len()),
        d.len() > 0 && d[0] != '0' ==> digits_value(d) >= pow10((d.len() - 1) as nat),
    decreases d.len(),
{
    if d.len() > 0 {
        let r = d.drop_first();
        assert forall|i: int| 0 <= i < r.len() implies is_digit(#[trigger] r[i]) by {
            assert(r[i] == d[i + 1]);
        }
        lemma_digits_bounds(r);
        assert(is_digit(d[0]));
        let x = digit_value(d[0]);
        let p = pow10((d.len() - 1) as nat);
        lemma_pow10_mono(0, (d.len() - 1) as nat);
        assert(0 <= x <= 9);
        assert(0 <= x * p <= 9 * p) by (nonlinear_arith)
            requires
                0 <= x <= 9,
                p >= 1,
        ;
        if d[0] != '0' {
            assert(x >= 1);
            assert(x * p >= p) by (nonlinear_arith)
                requires
                    x >= 1,
                    p >= 1,
            ;
        }
    }
}

/// Dropping leading zeros keeps the number, and leaves digits that do not
/// start with `0`.
proof fn lemma_strip_zeros(d: Seq<char>)
    requires
        all_digits(d),
    ensures
        all_digits(strip_zeros(d)),
        digits_value(strip_zeros(d)) == digits_value(d),
        strip_zeros(d).len() > 0 ==> strip_zeros(d)[0] != '0',
    decreases d.len(),
{
    if d.len() > 0 && d[0] == '0' {
        let r = d.drop_first();
        assert forall|i: int| 0 <= i < r.len() implies is_digit(#[trigger] r[i]) by {
            assert(r[i] == d[i + 1]);
        }
        lemma_strip_zeros(r);
        assert(digit_value(d[0]) == 0);
    }
}

/// Among equally long digit strings, the order of `String` is the order of
/// the numbers they write.
proof fn lemma_equal_length_order(x: Seq<char>, y: Seq<char>)
    requires
        all_digits(x),
        all_digits(y),
        x.len() == y.len(),
    ensures
        chars_lt(y, x) <==> digits_value(y) < digits_value(x),
    decreases x.len(),
{
    if x.len() > 0 {
        let rx = x.drop_first();
        let ry = y.drop_first();
        assert forall|i: int| 0 <= i < rx.len() implies is_digit(#[trigger] rx[i]) by {
            assert(rx[i] == x[i + 1]);
        }
        assert forall|i: int| 0 <= i < ry.len() implies is_digit(#[trigger] ry[i]) by {
            assert(ry[i] == y[i + 1]);
        }
        lemma_digits_bounds(rx);
        lemma_digits_bounds(ry);
        assert(is_digit(x[0]) && is_digit(y[0]));
        let p = pow10((x.len() - 1) as nat);
        let a = digit_value(x[0]);
        let b = digit_value(y[0]);
        let va = digits_value(rx);
        let vb = digits_value(ry);
        assert(digits_value(x) == a * p + va);
        assert(digits_value(y) == b * p + vb);
        if x[0] != y[0] {
            if b < a {
                assert(b * p + vb < a * p + va) by (nonlinear_arith)
                    requires
                        b < a,
                        0 <= vb < p,
                        0 <= va,
                ;
            } else {
                assert(a < b);
                assert(a * p + va < b * p + vb) by (nonlinear_arith)
                    requires
                        a < b,
                        0 <= va < p,
                        0 <= vb,
                ;
            }
        } else {
            lemma_equal_length_order(rx, ry);
        }
    }
}

/// The number order of digit strings: `num_gt(a, b)` holds exactly when the
/// number that `a` writes is greater than the one `b` writes (so `15` is
/// greater than `12`, and `007` equals `7`).
pub proof fn law_num_gt_is_number_order(a: Seq<char>, b: Seq<char>)
    requires
        all_digits(a),
        all_digits(b),
    ensures
        num_gt(a, b) <==> digits_value(a) > digits_value(b),
{
    lemma_strip_zeros(a);
    lemma_strip_zeros(b);
    let x = strip_zeros(a);
    let y = strip_zeros(b);
    lemma_digits_bounds(x);
    lemma_digits_bounds(y);
    if x.len() > y.len() {
        lemma_pow10_mono(y.len(), (x.len() - 1) as nat);
    } else if x.len() < y.len() {
        lemma_pow10_mono(x.len(), (y.len() - 1) as nat);
    } else {
        lemma_equal_length_order(x, y);
    }
}

/// The leading digits of a text are digits.
proof fn lemma_leading_digits(p: Seq<char>)
    ensures
        all_digits(leading_digits(p)),
    decreases p.len(),
{
    if p.len() > 0 && is_digit(p[0]) {
        lemma_leading_digits(p.drop_first());
        let r = leading_digits(p.drop_first());
        assert forall|i: int| 0 <= i < (seq![p[0]] + r).len() implies is_digit(
            #[trigger] (seq![p[0]] + r)[i],
        ) by {
            if i > 0 {
                assert((seq![p[0]] + r)[i] == r[i - 1]);
            }
        }
    }
}

/// The number of part `k` of a split version.
pub open spec fn part_value(ps: Seq<Seq<char>>, k: int) -> int {
    digits_value(part(ps, k))
}

proof fn lemma_part_digits(ps: Seq<Seq<char>>, k: int)
    ensures
        all_digits(part(ps, k)),
{
    if 0 <= k < ps.len() {
        lemma_leading_digits(ps[k]);
    }
}

/// A version whose parts before `k` have the same numbers as another's,
/// and whose part `k` has a greater number, is newer: `1.15` is newer than
/// `1.12`, and `1.10` than `1.9`.
pub proof fn law_version_newer_by_part(a: Seq<char>, b: Seq<char>, k: int)
    requires
        k >= 0,
        forall|j: int|
            0 <= j < k ==> part_value(split_dots(a), j) == part_value(split_dots(b), j),
        part_value(split_dots(a), k) > part_value(split_dots(b), k),
    ensures
        version_newer(a, b),
{
    lemma_newer_from(split_dots(a), split_dots(b), 0, k);
}

proof fn lemma_newer_from(x: Seq<Seq<char>>, y: Seq<Seq<char>>, i: int, k: int)
    requires
        0 <= i <= k,
        forall|j: int| i <= j < k ==> part_value(x, j) == part_value(y, j),
        part_value(x, k) > part_value(y, k),
    ensures
        parts_gt(x, y, i),
    decreases k - i,
{
    lemma_part_digits(x, i);
    lemma_part_digits(y, i);
    lemma_part_digits(x, k);
    lemma_part_digits(y, k);
    lemma_digits_bounds(part(y, k));
    law_num_gt_is_number_order(part(x, i), part(y, i));
    law_num_gt_is_number_order(part(y, i), part(x, i));
    if i == k {
        if k >= x.len() {
            assert(part(x, k) =~= Seq::<char>::empty());
            assert(digits_value(part(x, k)) == 0);
            assert(false);
        }
        assert(num_gt(part(x, i), part(y, i)));
        assert(parts_gt(x, y, i));
    } else {
        assert(part_value(x, i) == part_value(y, i));
        lemma_newer_from(x, y, i + 1, k);
        if i >= x.len() && i >= y.len() {
            assert(part(x, k) =~= Seq::<char>::empty());
            assert(digits_value(part(x, k)) == 0);
            assert(false);
        }
        assert(!num_gt(part(x, i), part(y, i)));
        assert(!num_gt(part(y, i), part(x, i)));
    }
}

/// Two versions of which neither is newer than the other have the same
/// number in every part: versions that differ in some part are ordered.
pub proof fn law_versions_not_newer_are_equal(a: Seq<char>, b: Seq<char>, k: int)
    requires
        k >= 0,
        !version_newer(a, b),
        !version_newer(b, a),
    ensures
        part_value(split_dots(a), k) == part_value(split_dots(b), k),
{
    lemma_not_newer_equal(split_dots(a), split_dots(b), 0, k);
}

proof fn lemma_not_newer_equal(x: Seq<Seq<char>>, y: Seq<Seq<char>>, i: int, k: int)
    requires
        0 <= i <= k,
        !parts_gt(x, y, i),
        !parts_gt(y, x, i),
    ensures
        part_value(x, k) == part_value(y, k),
    decreases x.len() + y.len() - i,
{
    if i >= x.len() && i >= y.len() {
        assert(part(x, k) =~= Seq::<char>::empty());
        assert(part(y, k) =~= Seq::<char>::empty());
    } else {
        lemma_part_digits(x, i);
        lemma_part_digits(y, i);
        law_num_gt_is_number_order(part(x, i), part(y, i));
        law_num_gt_is_number_order(part(y, i), part(x, i));
        if i < k {
            lemma_not_newer_equal(x, y, i + 1, k);
        }
    }
}

/// The leading ASCII digits of `p`.
fn leading_digits_exec(p: &[char]) -> (res: Vec<char>)
    ensures
        res@ == leading_digits(p@),
{
    let mut i: usize = 0;
    assert(p@.skip(0) =~= p@);
    assert(p@.take(0) =~= Seq::<char>::empty());
    while i < p.len() && '0' <= p[i] && p[i] <= '9'
        invariant
            i <= p.len(),
            leading_digits(p@) == p@.take(i as int) + leading_digits(p@.skip(i as int)),
        decreases p.len() - i,
    {
        assert(p@.skip(i as int)[0] == p@[i as int]);
        assert(p@.skip(i as int).drop_first() =~= p@.skip(i + 1));
        assert(p@.take(i + 1) =~= p@.take(i as int) + seq![p@[i as int]]);
        i = i + 1;
    }
    proof {
        if i < p.len() {
            assert(p@.skip(i as int)[0] == p@[i as int]);
        }
    }
    assert(p@.take(i as int) + leading_digits(p@.skip(i as int)) =~= p@.take(i as int));
    sub_chars(p, 0, i)
}

/// Whether the number the digits `a` write is greater than the one `b`
/// writes.
fn num_greater(a: &[char], b: &[char]) -> (res: bool)
    ensures
        res == num_gt(a@, b@),
{
    let mut i: usize = 0;
    assert(a@.skip(0) =~= a@);
    while i < a.len() && a[i] == '0'
        invariant
            i <= a.len(),
            strip_zeros(a@.skip(i as int)) == strip_zeros(a@),
        decreases a.len() - i,
    {
        assert(a@.skip(i as int).drop_first() =~= a@.skip(i + 1));
        i = i + 1;
    }
    let mut j: usize = 0;
    assert(b@.skip(0) =~= b@);
    while j < b.len() && b[j] == '0'
        invariant
            j <= b.len(),
            strip_zeros(b@.skip(j as int)) == strip_zeros(b@),
        decreases b.len() - j,
    {
        assert(b@.skip(j as int).drop_first() =~= b@.skip(j + 1));
        j = j + 1;
    }
    let x = sub_chars(a, i, a.len());
    let y = sub_chars(b, j, b.len());
    assert(x@ =~= a@.skip(i as int));
    assert(y@ =~= b@.skip(j as int));
    proof {
        if i < a.len() {
            assert(a@.skip(i as int)[0] == a@[i as int]);
        }
        if j < b.len() {
            assert(b@.skip(j as int)[0] == b@[j as int]);
        }
    }
    assert(strip_zeros(x@) == x@);
    assert(strip_zeros(y@) == y@);
    x.len() > y.len() || (x.len() == y.len() && chars_less(y.as_slice(), x.as_slice()))
}

/// The digits of part `k` of a split version.
fn part_exec(ps: &Vec<Vec<char>>, k: usize) -> (res: Vec<char>)
    ensures
        res@ == part(pieces_view(ps@), k as int),
{
    if k < ps.len() {
        leading_digits_exec(ps[k].as_slice())
    } else {
        Vec::new()
    }
}

/// Whether version `a` is newer than version `b`.
pub fn version_is_newer(a: &str, b: &str) -> (res: bool)
    ensures
        res == version_newer(a@, b@),
{
    let x = split_dot_pieces(chars_of(a).as_slice());
    let y = split_dot_pieces(chars_of(b).as_slice());
    let ghost xv = pieces_view(x@);
    let ghost yv = pieces_view(y@);
    let mut k: usize = 0;
    while k < x.len() || k < y.len()
        invariant
            xv == pieces_view(x@),
            yv == pieces_view(y@),
            xv.len() == x@.len(),
            yv.len() == y@.len(),
            parts_gt(xv, yv, k as int) == version_newer(a@, b@),
        decreases x.len() + y.len() - k,
    {
        let dx = part_exec(&x, k);
        let dy = part_exec(&y, k);
        if num_greater(dx.as_slice(), dy.as_slice()) {
            return true;
        }
        if num_greater(dy.as_slice(), dx.as_slice()) {
            return false;
        }
        k = k + 1;
    }
    false
}

} // verus!
