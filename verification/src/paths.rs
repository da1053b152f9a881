//! Unix paths as text: joining, components, prefix tests, and the
//! directory layout of miyu and miyu-pm.

use vstd::prelude::*;
use crate::error::PmError;
use crate::text::{
    chars_of, find_first, lemma_find_char_concat, lemma_find_first, lemma_occurs_single, owned,
    push_all, string_of,
};

verus! {

broadcast use vstd::seq_lib::group_seq_properties;

/// `/`
pub open spec fn slash() -> Seq<char> {
    seq!['/']
}

/// `path` joined with `seg` as `Path::join` does on Unix: an absolute `seg`
/// replaces `path`; otherwise a `/` is put between them unless `path` is
/// empty or already ends with one.
pub open spec fn join(path: Seq<char>, seg: Seq<char>) -> Seq<char> {
    if seg.len() > 0 && seg[0] == '/' {
        seg
    } else if path.len() > 0 && path.last() != '/' {
        path + slash() + seg
    } else {
        path + seg
    }
}

/// `path` is absolute: it starts at the root.
pub open spec fn is_absolute(path: Seq<char>) -> bool {
    path.len() > 0 && path[0] == '/'
}

/// The pieces of `s` between `/` separators, empty pieces included.
pub open spec fn split_slash(s: Seq<char>) -> Seq<Seq<char>>
    decreases s.len(),
{
    match find_first(s, slash()) {
        Some(p) => {
            proof {
                lemma_find_first(s, slash());
            }
            seq![s.take(p)] + split_slash(s.skip(p + 1))
        },
        None => seq![s],
    }
}

/// A piece that stands as a component of its own: not empty and not `.`.
pub open spec fn is_kept_piece(p: Seq<char>) -> bool {
    p.len() > 0 && p != seq!['.']
}

/// The test that keeps a piece.
pub open spec fn kept() -> spec_fn(Seq<char>) -> bool {
    |p: Seq<char>| is_kept_piece(p)
}

/// The component that leads a path: the root `/` for an absolute path, `.`
/// for a relative path whose first piece is `.`, else none.
pub open spec fn lead_component(s: Seq<char>) -> Seq<Seq<char>> {
    if is_absolute(s) {
        seq![slash()]
    } else if split_slash(s)[0] == seq!['.'] {
        seq![seq!['.']]
    } else {
        seq![]
    }
}

/// The components of a path as `Path::components` gives them on Unix, each
/// as its text: `/` for the root, `.` only at the start of a relative path,
/// `..` for the parent; empty pieces and inner `.` pieces are dropped.
pub open spec fn components(s: Seq<char>) -> Seq<Seq<char>> {
    lead_component(s) + split_slash(s).filter(kept())
}

/// `path` starts with `base` as `Path::starts_with` decides: the components
/// of `base` are the first components of `path`.
pub open spec fn path_starts_with(path: Seq<char>, base: Seq<char>) -> bool {
    let c = components(path);
    let b = components(base);
    b.len() <= c.len() && c.take(b.len() as int) == b
}

/// Two paths are equal as `Path`s: they have the same components.
pub open spec fn same_path(a: Seq<char>, b: Seq<char>) -> bool {
    components(a) == components(b)
}

/// The final component of `path` when it is a name (`Path::file_name`).
pub open spec fn file_name(path: Seq<char>) -> Option<Seq<char>> {
    let c = components(path);
    if c.len() > 0 && c.last() != slash() && c.last() != seq!['.'] && c.last() != seq!['.', '.'] {
        Some(c.last())
    } else {
        None
    }
}

/// A piece of a split never holds `/`.
proof fn lemma_split_no_slash(s: Seq<char>)
    ensures
        split_slash(s).len() >= 1,
        forall|i: int| 0 <= i < split_slash(s).len() ==> !(#[trigger] split_slash(s)[i]).contains('/'),
    decreases s.len(),
{
    lemma_find_first(s, slash());
    match find_first(s, slash()) {
        Some(p) => {
            lemma_split_no_slash(s.skip(p + 1));
            let head = s.take(p);
            assert forall|j: int| 0 <= j < head.len() implies head[j] != '/' by {
                lemma_occurs_single(s, '/', j);
            }
            let sp = split_slash(s);
            assert forall|i: int| 0 <= i < sp.len() implies !(#[trigger] sp[i]).contains('/') by {
                if i == 0 {
                    assert(sp[0] == head);
                } else {
                    assert(sp[i] == split_slash(s.skip(p + 1))[i - 1]);
                }
            }
        },
        None => {
            assert forall|j: int| 0 <= j < s.len() implies s[j] != '/' by {
                lemma_occurs_single(s, '/', j);
            }
        },
    }
}

/// A text without `/` is a single piece.
pub proof fn lemma_split_single(s: Seq<char>)
    requires
        !s.contains('/'),
    ensures
        split_slash(s) == seq![s],
{
    lemma_find_first(s, slash());
    if find_first(s, slash()) is Some {
        let p = find_first(s, slash())->0;
        lemma_occurs_single(s, '/', p);
    }
}

/// Splitting `x/y` gives the pieces of `x` followed by those of `y`.
pub proof fn lemma_split_concat(x: Seq<char>, y: Seq<char>)
    ensures
        split_slash(x + slash() + y) == split_slash(x) + split_slash(y),
    decreases x.len(),
{
    let xy = x + slash() + y;
    assert(x + slash() + y == x + (slash() + y));
    lemma_find_char_concat(x, slash() + y, '/');
    lemma_find_first(x, slash());
    match find_first(x, slash()) {
        Some(p) => {
            assert(find_first(xy, slash()) == Some(p));
            assert(xy.take(p) == x.take(p));
            assert(xy.skip(p + 1) == x.skip(p + 1) + slash() + y);
            lemma_split_concat(x.skip(p + 1), y);
        },
        None => {
            assert(find_first(xy, slash()) == Some(x.len() as int));
            assert(xy.take(x.len() as int) == x);
            assert(xy.skip(x.len() + 1int) == y);
        },
    }
}

/// The components of a relative `seg` below a base: its kept pieces.
pub open spec fn tail_components(seg: Seq<char>) -> Seq<Seq<char>> {
    split_slash(seg).filter(kept())
}

/// The components of `x/y`: those of `x`, then the kept pieces of `y`.
proof fn lemma_concat_components(x: Seq<char>, y: Seq<char>)
    requires
        x.len() > 0,
    ensures
        components(x + slash() + y) == lead_component(x) + split_slash(x).filter(kept()) + tail_components(y),
{
    let ghost pred = kept();
    let xy = x + slash() + y;
    lemma_split_concat(x, y);
    lemma_split_no_slash(x);
    assert(xy[0] == x[0]);
    assert(split_slash(xy)[0] == split_slash(x)[0]);
    assert(lead_component(xy) == lead_component(x));
    Seq::filter_distributes_over_add(split_slash(x), split_slash(y), pred);
}

/// Joining a relative `seg` onto a non-empty `base` appends the kept pieces
/// of `seg` to the components of `base`.
pub proof fn lemma_join_components(base: Seq<char>, seg: Seq<char>)
    requires
        base.len() > 0,
        !is_absolute(seg),
    ensures
        components(join(base, seg)) == components(base) + tail_components(seg),
{
    let ghost pred = kept();
    if base.last() != '/' {
        lemma_concat_components(base, seg);
    } else {
        let b = base.drop_last();
        assert(base == b + slash());
        assert(join(base, seg) == b + slash() + seg);
        let empty: Seq<char> = seq![];
        assert(base == b + slash() + empty);
        if b.len() == 0 {
            // base is `/`
            assert(split_slash(slash() + seg) == split_slash(empty) + split_slash(seg)) by {
                lemma_split_concat(empty, seg);
                assert(empty + slash() + seg == slash() + seg);
            }
            assert(split_slash(base) == split_slash(empty) + split_slash(empty)) by {
                lemma_split_concat(empty, empty);
                assert(empty + slash() + empty == base);
            }
            lemma_split_single(empty);
            assert(seq![empty].filter(pred) =~= Seq::<Seq<char>>::empty()) by {
                reveal_with_fuel(Seq::filter, 2);
                assert(seq![empty].drop_last() =~= Seq::<Seq<char>>::empty());
                assert(!pred(empty));
            }
            Seq::filter_distributes_over_add(split_slash(empty), split_slash(seg), pred);
            Seq::filter_distributes_over_add(split_slash(empty), split_slash(empty), pred);
            assert((slash() + seg)[0] == '/');
            assert(components(base) =~= seq![slash()]);
            assert(components(join(base, seg)) =~= seq![slash()] + tail_components(seg));
        } else {
            lemma_concat_components(b, seg);
            lemma_concat_components(b, empty);
            lemma_split_single(empty);
            assert(seq![empty].filter(pred) =~= Seq::<Seq<char>>::empty()) by {
                reveal_with_fuel(Seq::filter, 2);
                assert(seq![empty].drop_last() =~= Seq::<Seq<char>>::empty());
                assert(!pred(empty));
            }
            assert(tail_components(empty) =~= Seq::<Seq<char>>::empty());
            assert(lead_component(base) == lead_component(b)) by {
                assert(base[0] == b[0]);
                lemma_split_concat(b, empty);
                lemma_split_no_slash(b);
                assert(split_slash(base)[0] == split_slash(b)[0]);
            }
        }
    }
}

/// A relative `seg` joined onto a non-empty `base` stays under `base`.
pub proof fn law_join_stays_under_base(base: Seq<char>, seg: Seq<char>)
    requires
        base.len() > 0,
        !is_absolute(seg),
    ensures
        path_starts_with(join(base, seg), base),
{
    lemma_join_components(base, seg);
    let c = components(join(base, seg));
    let b = components(base);
    assert(c.take(b.len() as int) =~= b);
}

/// A sequence of character vectors, taken by their characters.
pub open spec fn nested_view(v: Seq<Vec<char>>) -> Seq<Seq<char>> {
    v.map_values(|x: Vec<char>| x@)
}

/// Whether two character sequences are equal.
pub fn chars_eq(a: &[char], b: &[char]) -> (res: bool)
    ensures
        res == (a@ == b@),
{
    if a.len() != b.len() {
        return false;
    }
    let mut i: usize = 0;
    while i < a.len()
        invariant
            a.len() == b.len(),
            i <= a.len(),
            forall|k: int| 0 <= k < i ==> a@[k] == b@[k],
        decreases a.len() - i,
    {
        if a[i] != b[i] {
            return false;
        }
        i = i + 1;
    }
    assert(a@ =~= b@);
    true
}

/// `path` joined with `seg` (`Path::join` on Unix).
pub fn join_path(path: &str, seg: &str) -> (res: String)
    ensures
        res@ == join(path@, seg@),
{
    let p = chars_of(path);
    let sg = chars_of(seg);
    if sg.len() > 0 && sg[0] == '/' {
        owned(seg)
    } else if p.len() > 0 && p[p.len() - 1] != '/' {
        let mut out = p;
        out.push('/');
        push_all(&mut out, sg.as_slice());
        assert(out@ =~= path@ + slash() + seg@);
        string_of(out.as_slice())
    } else {
        let mut out = p;
        push_all(&mut out, sg.as_slice());
        string_of(out.as_slice())
    }
}

/// The pieces of `s` between `/` separators.
fn split_pieces(s: &[char]) -> (res: Vec<Vec<char>>)
    ensures
        nested_view(res@) == split_slash(s@),
{
    let mut pieces: Vec<Vec<char>> = Vec::new();
    let mut cur: Vec<char> = Vec::new();
    let mut i: usize = 0;
    assert(cur@ + s@.skip(0) =~= s@);
    while i < s.len()
        invariant
            i <= s.len(),
            !cur@.contains('/'),
            split_slash(s@) == nested_view(pieces@) + split_slash(cur@ + s@.skip(i as int)),
        decreases s.len() - i,
    {
        let c = s[i];
        if c == '/' {
            proof {
                assert(cur@ + s@.skip(i as int) =~= cur@ + slash() + s@.skip(i + 1));
                lemma_split_concat(cur@, s@.skip(i + 1));
                lemma_split_single(cur@);
            }
            let ghost old_pieces = pieces@;
            let done = cur;
            pieces.push(done);
            cur = Vec::new();
            assert(nested_view(pieces@) =~= nested_view(old_pieces).push(done@));
            assert(cur@ + s@.skip(i + 1) =~= s@.skip(i + 1));
        } else {
            let ghost old_cur = cur@;
            cur.push(c);
            assert(cur@ + s@.skip(i + 1) =~= old_cur + s@.skip(i as int));
            assert forall|j: int| 0 <= j < cur@.len() implies cur@[j] != '/' by {
                if j < old_cur.len() {
                    assert(cur@[j] == old_cur[j]);
                }
            }
        }
        i = i + 1;
    }
    proof {
        assert(cur@ + s@.skip(i as int) =~= cur@);
        lemma_split_single(cur@);
    }
    let ghost old_pieces = pieces@;
    let last = cur;
    pieces.push(last);
    assert(nested_view(pieces@) =~= nested_view(old_pieces).push(last@));
    pieces
}

/// The components of `path` (`Path::components` on Unix), each as its text.
pub fn components_of(path: &str) -> (res: Vec<Vec<char>>)
    ensures
        nested_view(res@) == components(path@),
{
    let cs = chars_of(path);
    let pieces = split_pieces(cs.as_slice());
    proof {
        lemma_split_no_slash(path@);
    }
    let mut out: Vec<Vec<char>> = Vec::new();
    assert(nested_view(pieces@)[0] == pieces@[0]@);
    if cs.len() > 0 && cs[0] == '/' {
        let r = vec!['/'];
        assert(r@ =~= slash());
        out.push(r);
        assert(nested_view(out@) =~= seq![slash()]);
    } else if pieces[0].len() == 1 && pieces[0][0] == '.' {
        assert(pieces[0]@ =~= seq!['.']);
        let d = vec!['.'];
        assert(d@ =~= seq!['.']);
        out.push(d);
        assert(nested_view(out@) =~= seq![seq!['.']]);
    } else {
        proof {
            if nested_view(pieces@)[0] == seq!['.'] {
                assert(pieces@[0]@ == seq!['.']);
                assert(pieces@[0]@.len() == 1 && pieces@[0]@[0] == '.');
            }
        }
        assert(nested_view(out@) =~= Seq::<Seq<char>>::empty());
    }
    let ghost lead = nested_view(out@);
    assert(lead == lead_component(path@));
    let ghost pred = kept();
    let mut i: usize = 0;
    assert(nested_view(pieces@).take(0).filter(pred) =~= Seq::<Seq<char>>::empty()) by {
        reveal(Seq::filter);
    }
    assert(nested_view(out@) =~= lead + nested_view(pieces@).take(0).filter(pred));
    while i < pieces.len()
        invariant
            i <= pieces.len(),
            pred == kept(),
            lead == lead_component(path@),
            nested_view(out@) == lead + nested_view(pieces@).take(i as int).filter(pred),
        decreases pieces.len() - i,
    {
        let ghost pv = nested_view(pieces@);
        proof {
            reveal(Seq::filter);
            assert(pv.take(i + 1).drop_last() =~= pv.take(i as int));
            assert(pv.take(i + 1).last() == pieces@[i as int]@);
        }
        let p = &pieces[i];
        let keep = p.len() > 0 && !(p.len() == 1 && p[0] == '.');
        proof {
            if p@ == seq!['.'] {
                assert(p@.len() == 1 && p@[0] == '.');
            }
            if p@.len() == 1 && p@[0] == '.' {
                assert(p@ =~= seq!['.']);
            }
        }
        if keep {
            let ghost old_out = out@;
            let copy = sub_vec(p);
            out.push(copy);
            assert(nested_view(out@) =~= nested_view(old_out).push(p@));
        }
        i = i + 1;
    }
    assert(nested_view(pieces@).take(pieces.len() as int) == nested_view(pieces@));
    out
}

/// A copy of a character vector.
fn sub_vec(v: &Vec<char>) -> (res: Vec<char>)
    ensures
        res@ == v@,
{
    let mut out: Vec<char> = Vec::new();
    push_all(&mut out, v.as_slice());
    out
}

/// Whether `path` starts with `base`, comparing whole components
/// (`Path::starts_with`).
pub fn starts_with_path(path: &str, base: &str) -> (res: bool)
    ensures
        res == path_starts_with(path@, base@),
{
    let c = components_of(path);
    let b = components_of(base);
    if b.len() > c.len() {
        return false;
    }
    let mut i: usize = 0;
    while i < b.len()
        invariant
            b.len() <= c.len(),
            i <= b.len(),
            nested_view(c@) == components(path@),
            nested_view(b@) == components(base@),
            forall|k: int| 0 <= k < i ==> components(path@)[k] == components(base@)[k],
        decreases b.len() - i,
    {
        if !chars_eq(c[i].as_slice(), b[i].as_slice()) {
            assert(components(path@).take(b.len() as int)[i as int] == components(path@)[i as int]);
            return false;
        }
        i = i + 1;
    }
    assert(components(path@).take(b.len() as int) =~= components(base@));
    true
}

/// Whether two paths are equal as `Path`s.
pub fn same_path_exec(a: &str, b: &str) -> (res: bool)
    ensures
        res == same_path(a@, b@),
{
    let ca = components_of(a);
    let cb = components_of(b);
    if ca.len() != cb.len() {
        assert(nested_view(ca@).len() != nested_view(cb@).len());
        return false;
    }
    let mut i: usize = 0;
    while i < ca.len()
        invariant
            ca.len() == cb.len(),
            i <= ca.len(),
            nested_view(ca@) == components(a@),
            nested_view(cb@) == components(b@),
            forall|k: int| 0 <= k < i ==> components(a@)[k] == components(b@)[k],
        decreases ca.len() - i,
    {
        if !chars_eq(ca[i].as_slice(), cb[i].as_slice()) {
            assert(nested_view(ca@)[i as int] != nested_view(cb@)[i as int]);
            return false;
        }
        i = i + 1;
    }
    assert(components(a@) =~= components(b@));
    true
}

/// `..`
pub open spec fn dotdot() -> Seq<char> {
    seq!['.', '.']
}

/// One component added to a path whose `.` and `..` are already resolved:
/// `.` changes nothing; `..` drops the last name, stays at the root, and is
/// kept where there is no name to drop; any other component is appended.
pub open spec fn resolve_step(acc: Seq<Seq<char>>, c: Seq<char>) -> Seq<Seq<char>> {
    if c == seq!['.'] {
        acc
    } else if c == dotdot() {
        if acc.len() > 0 && acc.last() != slash() && acc.last() != dotdot() {
            acc.drop_last()
        } else if acc.len() > 0 && acc.last() == slash() {
            acc
        } else {
            acc.push(c)
        }
    } else {
        acc.push(c)
    }
}

/// Components with `.` and `..` resolved, first to last.
pub open spec fn resolved(cs: Seq<Seq<char>>) -> Seq<Seq<char>>
    decreases cs.len(),
{
    if cs.len() == 0 {
        seq![]
    } else {
        resolve_step(resolved(cs.drop_last()), cs.last())
    }
}

/// `path` lies strictly inside `root` once `.` and `..` are resolved: the
/// resolved components of `root` are a proper prefix of those of `path`.
pub open spec fn strictly_inside(path: Seq<char>, root: Seq<char>) -> bool {
    let p = resolved(components(path));
    let r = resolved(components(root));
    r.len() < p.len() && p.take(r.len() as int) == r
}

/// The components of `path` with `.` and `..` resolved.
fn resolved_components(path: &str) -> (res: Vec<Vec<char>>)
    ensures
        nested_view(res@) == resolved(components(path@)),
{
    let comps = components_of(path);
    let ghost cv = nested_view(comps@);
    let dot = vec!['.'];
    let dd = vec!['.', '.'];
    let sl = vec!['/'];
    assert(dot@ =~= seq!['.']);
    assert(dd@ =~= dotdot());
    assert(sl@ =~= slash());
    let mut acc: Vec<Vec<char>> = Vec::new();
    let mut i: usize = 0;
    assert(cv.take(0) =~= Seq::<Seq<char>>::empty());
    assert(nested_view(acc@) =~= Seq::<Seq<char>>::empty());
    while i < comps.len()
        invariant
            i <= comps.len(),
            cv == nested_view(comps@),
            cv == components(path@),
            dot@ == seq!['.'],
            dd@ == dotdot(),
            sl@ == slash(),
            nested_view(acc@) == resolved(cv.take(i as int)),
        decreases comps.len() - i,
    {
        proof {
            assert(cv.take(i + 1).drop_last() =~= cv.take(i as int));
            assert(cv.take(i + 1).last() == comps@[i as int]@);
        }
        let ghost before = nested_view(acc@);
        let c = &comps[i];
        if chars_eq(c.as_slice(), dot.as_slice()) {
        } else if chars_eq(c.as_slice(), dd.as_slice()) {
            let n = acc.len();
            if n > 0 && !chars_eq(acc[n - 1].as_slice(), sl.as_slice()) && !chars_eq(
                acc[n - 1].as_slice(),
                dd.as_slice(),
            ) {
                let _ = acc.pop();
                assert(nested_view(acc@) =~= before.drop_last());
            } else if n > 0 && chars_eq(acc[n - 1].as_slice(), sl.as_slice()) {
            } else {
                acc.push(sub_vec(c));
                assert(nested_view(acc@) =~= before.push(c@));
            }
        } else {
            acc.push(sub_vec(c));
            assert(nested_view(acc@) =~= before.push(c@));
        }
        i = i + 1;
    }
    assert(cv.take(i as int) =~= cv);
    acc
}

/// Whether `path` lies strictly inside `root` once `.` and `..` are
/// resolved.
pub fn strictly_inside_exec(path: &str, root: &str) -> (res: bool)
    ensures
        res == strictly_inside(path@, root@),
{
    let p = resolved_components(path);
    let r = resolved_components(root);
    if r.len() >= p.len() {
        return false;
    }
    let ghost pv = nested_view(p@);
    let ghost rv = nested_view(r@);
    let mut i: usize = 0;
    while i < r.len()
        invariant
            r.len() < p.len(),
            i <= r.len(),
            pv == nested_view(p@),
            rv == nested_view(r@),
            pv == resolved(components(path@)),
            rv == resolved(components(root@)),
            forall|k: int| 0 <= k < i ==> pv[k] == rv[k],
        decreases r.len() - i,
    {
        if !chars_eq(p[i].as_slice(), r[i].as_slice()) {
            assert(pv.take(rv.len() as int)[i as int] != rv[i as int]);
            return false;
        }
        i = i + 1;
    }
    assert(pv.take(rv.len() as int) =~= rv);
    true
}

/// Two paths are the same once `.` and `..` are resolved.
pub open spec fn same_resolved(a: Seq<char>, b: Seq<char>) -> bool {
    resolved(components(a)) == resolved(components(b))
}

/// Whether two paths are the same once `.` and `..` are resolved.
pub fn same_resolved_exec(a: &str, b: &str) -> (res: bool)
    ensures
        res == same_resolved(a@, b@),
{
    let x = resolved_components(a);
    let y = resolved_components(b);
    if x.len() != y.len() {
        assert(nested_view(x@).len() != nested_view(y@).len());
        return false;
    }
    let ghost xv = nested_view(x@);
    let ghost yv = nested_view(y@);
    let mut i: usize = 0;
    while i < x.len()
        invariant
            x.len() == y.len(),
            i <= x.len(),
            xv == nested_view(x@),
            yv == nested_view(y@),
            xv == resolved(components(a@)),
            yv == resolved(components(b@)),
            forall|k: int| 0 <= k < i ==> xv[k] == yv[k],
        decreases x.len() - i,
    {
        if !chars_eq(x[i].as_slice(), y[i].as_slice()) {
            assert(xv[i as int] != yv[i as int]);
            return false;
        }
        i = i + 1;
    }
    assert(xv =~= yv);
    true
}

/// Resolving components that are neither `.` nor `..` after others appends
/// them.
proof fn lemma_resolved_append(a: Seq<Seq<char>>, b: Seq<Seq<char>>)
    requires
        forall|k: int| 0 <= k < b.len() ==> #[trigger] b[k] != seq!['.'] && b[k] != dotdot(),
    ensures
        resolved(a + b) == resolved(a) + b,
    decreases b.len(),
{
    if b.len() == 0 {
        assert(a + b =~= a);
        assert(resolved(a) + b =~= resolved(a));
    } else {
        let c = b.last();
        assert(b[b.len() - 1] == c);
        lemma_resolved_append(a, b.drop_last());
        assert((a + b).drop_last() =~= a + b.drop_last());
        assert((a + b).last() == c);
        assert(resolved(a) + b =~= (resolved(a) + b.drop_last()).push(c));
    }
}

/// The kept pieces of a text with no `..` piece include no `..`.
proof fn lemma_kept_no_dotdot(s: Seq<Seq<char>>)
    requires
        !s.contains(dotdot()),
    ensures
        forall|k: int| 0 <= k < s.filter(kept()).len() ==> #[trigger] s.filter(kept())[k]
            != dotdot(),
        forall|k: int| 0 <= k < s.filter(kept()).len() ==> #[trigger] s.filter(kept())[k] != seq![
            '.',
        ],
    decreases s.len(),
{
    reveal(Seq::filter);
    if s.len() > 0 {
        let d = s.drop_last();
        assert(!d.contains(dotdot())) by {
            if d.contains(dotdot()) {
                let j = choose|j: int| 0 <= j < d.len() && d[j] == dotdot();
                assert(s[j] == dotdot());
            }
        }
        lemma_kept_no_dotdot(d);
        assert(s[s.len() - 1] != dotdot());
        let pred = kept();
        if pred(s.last()) {
            assert(s.filter(pred) == d.filter(pred).push(s.last()));
        } else {
            assert(s.filter(pred) == d.filter(pred));
        }
    }
}

/// The final component of `path` when it is a name (`Path::file_name`).
pub fn file_name_of(path: &str) -> (res: Option<String>)
    ensures
        res matches Some(n) ==> file_name(path@) == Some(n@),
        res is None ==> file_name(path@) is None,
{
    let c = components_of(path);
    if c.len() == 0 {
        return None;
    }
    let last = &c[c.len() - 1];
    assert(last@ == components(path@).last());
    let slash_v = vec!['/'];
    let dot = vec!['.'];
    let dotdot = vec!['.', '.'];
    assert(slash_v@ =~= slash());
    assert(dot@ =~= seq!['.']);
    assert(dotdot@ =~= seq!['.', '.']);
    assert(nested_view(c@).len() == c@.len());
    if chars_eq(last.as_slice(), slash_v.as_slice()) || chars_eq(last.as_slice(), dot.as_slice())
        || chars_eq(last.as_slice(), dotdot.as_slice()) {
        None
    } else {
        Some(string_of(last.as_slice()))
    }
}

/// Whether `rel` is unsafe to join under a package root: it is absolute or
/// one of its `/`-separated pieces is `..`.
pub open spec fn is_unsafe_rel(rel: Seq<char>) -> bool {
    is_absolute(rel) || split_slash(rel).contains(seq!['.', '.'])
}

/// `base` joined with the package-relative path `rel`, refused when `rel`
/// is absolute or climbs out with `..`.
pub fn safe_join(base: &str, rel: &str) -> (res: Result<String, PmError>)
    ensures
        is_unsafe_rel(rel@) <==> res is Err,
        res matches Err(e) ==> e matches PmError::UnsafePath { path } && path@ == rel@,
        res matches Ok(p) ==> p@ == join(base@, rel@),
{
    let cs = chars_of(rel);
    let mut bad = cs.len() > 0 && cs[0] == '/';
    let pieces = split_pieces(cs.as_slice());
    let dotdot = vec!['.', '.'];
    assert(dotdot@ =~= seq!['.', '.']);
    let mut i: usize = 0;
    while i < pieces.len()
        invariant
            i <= pieces.len(),
            dotdot@ == seq!['.', '.'],
            nested_view(pieces@) == split_slash(rel@),
            bad == (is_absolute(rel@) || nested_view(pieces@).take(i as int).contains(
                seq!['.', '.'],
            )),
        decreases pieces.len() - i,
    {
        let ghost pv = nested_view(pieces@);
        let hit = chars_eq(pieces[i].as_slice(), dotdot.as_slice());
        proof {
            assert(pv.take(i + 1) =~= pv.take(i as int).push(pv[i as int]));
            if pv.take(i + 1).contains(seq!['.', '.']) && !hit {
                let k = choose|k: int| 0 <= k < i + 1 && #[trigger] pv.take(i + 1)[k] == seq!['.', '.'];
                assert(pv.take(i as int)[k] == seq!['.', '.']);
            }
            if hit {
                assert(pv.take(i + 1)[i as int] == seq!['.', '.']);
            }
            if pv.take(i as int).contains(seq!['.', '.']) {
                let k = choose|k: int| 0 <= k < i && #[trigger] pv.take(i as int)[k] == seq!['.', '.'];
                assert(pv.take(i + 1)[k] == seq!['.', '.']);
            }
        }
        bad = bad || hit;
        i = i + 1;
    }
    assert(nested_view(pieces@).take(pieces.len() as int) == nested_view(pieces@));
    if bad {
        Err(PmError::UnsafePath { path: owned(rel) })
    } else {
        Ok(join_path(base, rel))
    }
}

/// Where the process environment points miyu and miyu-pm: `HOME`,
/// `MIYU_PM_MIYU_HOME`, `MIYU_PM_HOME` and `MIYU_PM_REGISTRY`.
pub struct PathEnv {
    pub home: Option<String>,
    pub miyu_home: Option<String>,
    pub pm_home: Option<String>,
    pub registry: Option<String>,
}

/// The directories that miyu-pm works in.
pub struct Paths {
    pub miyu_home: String,
    pub pm_home: String,
    pub registry: String,
}

/// The first of two optional paths that is given, else `dflt`.
pub open spec fn first_given(a: Option<String>, b: Option<String>, dflt: Seq<char>) -> Seq<char> {
    match a {
        Some(x) => x@,
        None => match b {
            Some(y) => y@,
            None => dflt,
        },
    }
}

fn pick(a: Option<String>, b: Option<String>, dflt: String) -> (res: String)
    ensures
        res@ == first_given(a, b, dflt@),
{
    match a {
        Some(x) => x,
        None => match b {
            Some(y) => y,
            None => dflt,
        },
    }
}

impl Paths {
    /// The directories from command-line overrides, else the environment,
    /// else the defaults: `~/.miyu` and `~/.miyu-pm` under `HOME`, and the
    /// registry index `./registry/index.json`. `HOME` must be set.
    pub fn resolve(
        miyu_home_override: Option<String>,
        pm_home_override: Option<String>,
        registry_override: Option<String>,
        env: PathEnv,
    ) -> (res: Result<Paths, PmError>)
        ensures
            env.home is None <==> res is Err,
            res matches Err(e) ==> e is HomeNotSet,
            res matches Ok(p) ==> {
                let home = env.home->0@;
                let pm = first_given(pm_home_override, env.pm_home, join(home, ".miyu-pm"@));
                &&& p.miyu_home@ == first_given(
                    miyu_home_override,
                    env.miyu_home,
                    join(home, ".miyu"@),
                )
                &&& p.pm_home@ == pm
                &&& p.registry@ == first_given(
                    registry_override,
                    env.registry,
                    "./registry/index.json"@,
                )
            },
    {
        let home = match env.home {
            Some(h) => h,
            None => {
                return Err(PmError::HomeNotSet);
            },
        };
        let miyu_home = pick(miyu_home_override, env.miyu_home, join_path(home.as_str(), ".miyu"));
        let pm_home = pick(pm_home_override, env.pm_home, join_path(home.as_str(), ".miyu-pm"));
        let registry = pick(registry_override, env.registry, owned("./registry/index.json"));
        Ok(Paths { miyu_home, pm_home, registry })
    }

    pub open spec fn spec_config_file(&self) -> Seq<char> {
        join(join(self.miyu_home@, "config"@), "config.jsonc"@)
    }

    pub open spec fn spec_mcp_servers_dir(&self) -> Seq<char> {
        join(self.miyu_home@, "mcp-servers"@)
    }

    pub open spec fn spec_data_skills_dir(&self) -> Seq<char> {
        join(join(self.miyu_home@, "data"@), "skills"@)
    }

    pub open spec fn spec_data_scripts_dir(&self) -> Seq<char> {
        join(join(self.miyu_home@, "data"@), "scripts"@)
    }

    pub open spec fn spec_state_dir(&self) -> Seq<char> {
        join(self.pm_home@, "state"@)
    }

    pub open spec fn spec_cache_dir(&self) -> Seq<char> {
        join(self.pm_home@, "cache"@)
    }

    pub open spec fn spec_backup_dir(&self) -> Seq<char> {
        join(join(self.miyu_home@, "config"@), ".miyu-pm-backups"@)
    }

    /// `<miyu home>/config/config.jsonc`
    pub fn config_file(&self) -> (res: String)
        ensures
            res@ == self.spec_config_file(),
    {
        join_path(join_path(self.miyu_home.as_str(), "config").as_str(), "config.jsonc")
    }

    /// `<miyu home>/mcp-servers`
    pub fn mcp_servers_dir(&self) -> (res: String)
        ensures
            res@ == self.spec_mcp_servers_dir(),
    {
        join_path(self.miyu_home.as_str(), "mcp-servers")
    }

    /// `<miyu home>/data/skills`
    pub fn data_skills_dir(&self) -> (res: String)
        ensures
            res@ == self.spec_data_skills_dir(),
    {
        join_path(join_path(self.miyu_home.as_str(), "data").as_str(), "skills")
    }

    /// `<miyu home>/data/scripts`
    pub fn data_scripts_dir(&self) -> (res: String)
        ensures
            res@ == self.spec_data_scripts_dir(),
    {
        join_path(join_path(self.miyu_home.as_str(), "data").as_str(), "scripts")
    }

    /// `<pm home>/state`
    pub fn state_dir(&self) -> (res: String)
        ensures
            res@ == self.spec_state_dir(),
    {
        join_path(self.pm_home.as_str(), "state")
    }

    /// `<pm home>/state/installed.json`
    pub fn installed_state_file(&self) -> (res: String)
        ensures
            res@ == join(self.spec_state_dir(), "installed.json"@),
    {
        join_path(self.state_dir().as_str(), "installed.json")
    }

    /// `<pm home>/state/sources.json`
    pub fn sources_file(&self) -> (res: String)
        ensures
            res@ == join(self.spec_state_dir(), "sources.json"@),
    {
        join_path(self.state_dir().as_str(), "sources.json")
    }

    /// `<pm home>/cache`
    pub fn cache_dir(&self) -> (res: String)
        ensures
            res@ == self.spec_cache_dir(),
    {
        join_path(self.pm_home.as_str(), "cache")
    }

    /// `<pm home>/cache/clones`
    pub fn cache_clones_dir(&self) -> (res: String)
        ensures
            res@ == join(self.spec_cache_dir(), "clones"@),
    {
        join_path(self.cache_dir().as_str(), "clones")
    }

    /// `<miyu home>/config/.miyu-pm-backups`
    pub fn backup_dir(&self) -> (res: String)
        ensures
            res@ == self.spec_backup_dir(),
    {
        join_path(join_path(self.miyu_home.as_str(), "config").as_str(), ".miyu-pm-backups")
    }

    /// Whether `target` is a child of miyu's `mcp-servers` directory: it
    /// lies strictly inside it once `.` and `..` are resolved.
    pub fn is_managed_mcp_dir(&self, target: &str) -> (res: bool)
        ensures
            res == strictly_inside(target@, self.spec_mcp_servers_dir()),
    {
        let root = self.mcp_servers_dir();
        strictly_inside_exec(target, root.as_str())
    }

    /// Whether `target` lies under miyu's `data/scripts` directory.
    pub fn is_managed_scripts_file(&self, target: &str) -> (res: bool)
        ensures
            res == path_starts_with(target@, self.spec_data_scripts_dir()),
    {
        let root = self.data_scripts_dir();
        starts_with_path(target, root.as_str())
    }

    /// Whether an MCP server directory may be deleted: `mcp-servers` itself
    /// is refused as such, anything else must be a child of it.
    pub fn check_mcp_dir_removal(&self, dir: &str) -> (res: Result<(), PmError>)
        ensures
            res is Ok <==> strictly_inside(dir@, self.spec_mcp_servers_dir()),
            same_resolved(dir@, self.spec_mcp_servers_dir()) ==> res matches Err(
                PmError::WholeMcpDir,
            ),
            !same_resolved(dir@, self.spec_mcp_servers_dir()) && !strictly_inside(
                dir@,
                self.spec_mcp_servers_dir(),
            ) ==> (res matches Err(PmError::NotManagedPath { path }) && path@ == dir@),
    {
        let root = self.mcp_servers_dir();
        if same_resolved_exec(dir, root.as_str()) {
            return Err(PmError::WholeMcpDir);
        }
        if !self.is_managed_mcp_dir(dir) {
            return Err(PmError::NotManagedPath { path: owned(dir) });
        }
        Ok(())
    }

    /// Whether a script file may be deleted: it must lie under `data/scripts`.
    pub fn check_script_file_removal(&self, file: &str) -> (res: Result<(), PmError>)
        ensures
            res is Ok <==> path_starts_with(file@, self.spec_data_scripts_dir()),
            res matches Err(e) ==> e matches PmError::NotManagedFile { path } && path@ == file@,
    {
        if !self.is_managed_scripts_file(file) {
            return Err(PmError::NotManagedFile { path: owned(file) });
        }
        Ok(())
    }
}

/// Whether a directory under a managed data root may be deleted: it must lie
/// under `root` and not be `root` itself.
pub fn check_dir_removal(dir: &str, root: &str) -> (res: Result<(), PmError>)
    ensures
        res is Ok <==> path_starts_with(dir@, root@) && !same_path(dir@, root@),
        !path_starts_with(dir@, root@) ==> (res matches Err(PmError::NotManagedPath { path })
            && path@ == dir@),
        path_starts_with(dir@, root@) && same_path(dir@, root@) ==> (res matches Err(
            PmError::WholeDataDir { path },
        ) && path@ == root@),
{
    if !starts_with_path(dir, root) {
        return Err(PmError::NotManagedPath { path: owned(dir) });
    }
    if same_path_exec(dir, root) {
        return Err(PmError::WholeDataDir { path: owned(root) });
    }
    Ok(())
}

/// Fails when the registry index file does not exist; `exists` is what the
/// file system says of `path`.
pub fn validate_registry_path(path: &str, exists: bool) -> (res: Result<(), PmError>)
    ensures
        res is Ok <==> exists,
        res matches Err(e) ==> e matches PmError::RegistryNotFound { path: p } && p@ == path@,
{
    if !exists {
        return Err(PmError::RegistryNotFound { path: owned(path) });
    }
    Ok(())
}

/// A path accepted by `safe_join` stays under its non-empty base.
pub proof fn law_safe_join_stays_under_base(base: Seq<char>, rel: Seq<char>)
    requires
        base.len() > 0,
        !is_unsafe_rel(rel),
    ensures
        path_starts_with(join(base, rel), base),
{
    law_join_stays_under_base(base, rel);
}

/// Joining a relative name with at least one component onto a non-empty
/// root gives a path strictly under the root: inside it and not the root.
pub proof fn law_join_is_strictly_under(root: Seq<char>, name: Seq<char>)
    requires
        root.len() > 0,
        !is_absolute(name),
        tail_components(name).len() > 0,
    ensures
        path_starts_with(join(root, name), root),
        !same_path(join(root, name), root),
{
    lemma_join_components(root, name);
    law_join_stays_under_base(root, name);
    assert(components(join(root, name)).len() > components(root).len());
}

/// The directory that an MCP package is installed to, `mcp-servers/<id>`
/// for an id that `safe_join` accepts and that has a component, is a child
/// of `mcp-servers`, so removal accepts it.
pub proof fn law_mcp_install_dir_is_removable(paths: Paths, id: Seq<char>)
    requires
        !is_unsafe_rel(id),
        tail_components(id).len() > 0,
    ensures
        strictly_inside(join(paths.spec_mcp_servers_dir(), id), paths.spec_mcp_servers_dir()),
{
    let root = paths.spec_mcp_servers_dir();
    reveal_strlit("mcp-servers");
    assert(root.len() > 0);
    lemma_join_components(root, id);
    lemma_kept_no_dotdot(split_slash(id));
    let t = tail_components(id);
    lemma_resolved_append(components(root), t);
    let r = resolved(components(root));
    assert((r + t).take(r.len() as int) =~= r);
}

/// The directory that a skill is installed to, `data/skills/<name>` for a
/// relative name with a component, is one that removal accepts.
pub proof fn law_skill_install_dir_is_removable(paths: Paths, name: Seq<char>)
    requires
        !is_absolute(name),
        tail_components(name).len() > 0,
    ensures
        path_starts_with(join(paths.spec_data_skills_dir(), name), paths.spec_data_skills_dir()),
        !same_path(join(paths.spec_data_skills_dir(), name), paths.spec_data_skills_dir()),
{
    reveal_strlit("skills");
    assert(paths.spec_data_skills_dir().len() > 0);
    law_join_is_strictly_under(paths.spec_data_skills_dir(), name);
}

/// A script installed into `data/scripts/<file>` under a relative file name
/// with a component is one that removal accepts.
pub proof fn law_script_install_file_is_removable(paths: Paths, file: Seq<char>)
    requires
        !is_absolute(file),
        tail_components(file).len() > 0,
    ensures
        path_starts_with(join(paths.spec_data_scripts_dir(), file), paths.spec_data_scripts_dir()),
{
    reveal_strlit("scripts");
    assert(paths.spec_data_scripts_dir().len() > 0);
    law_join_is_strictly_under(paths.spec_data_scripts_dir(), file);
}

} // verus!
