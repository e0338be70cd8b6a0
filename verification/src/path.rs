//! Paths as byte strings: their components, joining, and how a path is copied
//! into a fixed-size header field.
use vstd::prelude::*;
use crate::error::TarError;
use crate::numeric::splice;

verus! {

/// The path `/`, which is also the byte string of the root component.
pub open spec fn root() -> Seq<u8> {
    seq![47u8]
}

/// The component `.`.
pub open spec fn dot() -> Seq<u8> {
    seq![46u8]
}

/// The component `..`.
pub open spec fn dot_dot() -> Seq<u8> {
    seq![46u8, 46u8]
}

/// The parts of `p` between slashes, empty parts included; there is always one
/// more part than there are slashes.
pub open spec fn path_parts(p: Seq<u8>) -> Seq<Seq<u8>>
    decreases p.len(),
{
    if p.len() == 0 {
        seq![Seq::<u8>::empty()]
    } else {
        let ps = path_parts(p.drop_last());
        if p.last() == 47u8 {
            ps.push(Seq::<u8>::empty())
        } else {
            ps.update(ps.len() - 1, ps.last().push(p.last()))
        }
    }
}

/// The component that the part at index `j` contributes: nothing for an empty
/// part, nothing for `.` except as the very first part.
pub open spec fn part_component(part: Seq<u8>, j: nat) -> Seq<Seq<u8>> {
    if part.len() == 0 || (part == dot() && j != 0) {
        seq![]
    } else {
        seq![part]
    }
}

/// The components that the parts contribute, in order.
pub open spec fn parts_components(ps: Seq<Seq<u8>>) -> Seq<Seq<u8>>
    decreases ps.len(),
{
    if ps.len() == 0 {
        seq![]
    } else {
        parts_components(ps.drop_last()) + part_component(ps.last(), (ps.len() - 1) as nat)
    }
}

/// The components of `p`, each as its byte string: `/` for a leading root,
/// then the non-empty parts, where `.` counts only at the start.
pub open spec fn components(p: Seq<u8>) -> Seq<Seq<u8>> {
    (if p.len() > 0 && p[0] == 47u8 {
        seq![root()]
    } else {
        seq![]
    }) + parts_components(path_parts(p))
}

/// Whether `x` holds a nul byte.
pub open spec fn has_nul(x: Seq<u8>) -> bool {
    exists|i: int| 0 <= i < x.len() && x[i] == 0u8
}

/// `out` followed by `x` in a field of `room` bytes, or why `x` cannot follow.
pub open spec fn copy_piece(out: Seq<u8>, room: nat, x: Seq<u8>) -> Result<Seq<u8>, TarError> {
    if out.len() + x.len() > room {
        Err(TarError::ValueTooLong)
    } else if has_nul(x) {
        Err(TarError::ValueContainsNul)
    } else {
        Ok(out + x)
    }
}

/// The state after copying the first `n` of `comps` into a field of `room`
/// bytes: the bytes copied, whether a slash must precede the next component,
/// whether a component was copied, and the error that stopped the copy.
/// A name (not a link target) refuses the root and `..`, and copies `.` only
/// where it is the sole component.
pub open spec fn copy_components(comps: Seq<Seq<u8>>, n: nat, room: nat, is_link: bool) -> (
    Seq<u8>,
    bool,
    bool,
    Option<TarError>,
)
    decreases n,
{
    if n == 0 {
        (seq![], false, false, None)
    } else {
        let prev = copy_components(comps, (n - 1) as nat, room, is_link);
        let out = prev.0;
        let needs_slash = prev.1;
        let emitted = prev.2;
        let c = comps[n - 1];
        if prev.3 is Some {
            prev
        } else if !is_link && c == root() {
            (out, needs_slash, emitted, Some(TarError::PathNotRelative))
        } else if !is_link && c == dot_dot() {
            (out, needs_slash, emitted, Some(TarError::PathHasParentDir))
        } else if !is_link && c == dot() && comps.len() != 1 {
            prev
        } else {
            let sep = if needs_slash {
                copy_piece(out, room, root())
            } else {
                Ok(out)
            };
            match sep {
                Err(e) => (out, needs_slash, emitted, Some(e)),
                Ok(out1) => match copy_piece(out1, room, c) {
                    Err(e) => (out1, needs_slash, emitted, Some(e)),
                    Ok(out2) => (out2, needs_slash || c != root(), true, None),
                },
            }
        }
    }
}

/// What copying `p` into a field of `room` bytes writes, and the error that
/// stopped it, if any. A path that ends in a slash keeps its slash.
#[verifier::opaque]
pub open spec fn path_copy(p: Seq<u8>, room: nat, is_link: bool) -> (Seq<u8>, Option<TarError>) {
    let comps = components(p);
    let st = copy_components(comps, comps.len(), room, is_link);
    if st.3 is Some {
        (st.0, st.3)
    } else if !st.2 {
        (st.0, Some(TarError::PathEmpty))
    } else if p.len() > 0 && p.last() == 47u8 {
        match copy_piece(st.0, room, root()) {
            Err(e) => (st.0, Some(e)),
            Ok(o) => (o, None),
        }
    } else {
        (st.0, None)
    }
}

/// The bytes `h` after `out` was copied into the field of `room` bytes at
/// `start`, followed by a nul where the field has room for one.
pub open spec fn field_after_copy(h: Seq<u8>, start: int, room: nat, out: Seq<u8>) -> Seq<u8> {
    if out.len() == 0 {
        h
    } else if out.len() < room {
        splice(h, start, out.push(0u8))
    } else {
        splice(h, start, out)
    }
}

/// `p` joined onto `base`: `p` itself where it starts at the root, else `base`,
/// a slash where `base` is not empty and does not already end in one, then `p`.
pub open spec fn join(base: Seq<u8>, p: Seq<u8>) -> Seq<u8> {
    if p.len() > 0 && p[0] == 47u8 {
        p
    } else if base.len() > 0 && base.last() != 47u8 {
        base + root() + p
    } else {
        base + p
    }
}

proof fn lemma_no_nul_concat(a: Seq<u8>, b: Seq<u8>)
    requires
        !has_nul(a),
        !has_nul(b),
    ensures
        !has_nul(a + b),
{
    assert forall|i: int| 0 <= i < (a + b).len() implies (a + b)[i] != 0u8 by {
        if i < a.len() {
            assert((a + b)[i] == a[i]);
        } else {
            assert((a + b)[i] == b[i - a.len()]);
        }
    }
}

proof fn lemma_copy_piece_ok(out: Seq<u8>, room: nat, x: Seq<u8>)
    requires
        out.len() <= room,
        !has_nul(out),
    ensures
        copy_piece(out, room, x) matches Ok(o) ==> o.len() <= room && !has_nul(o),
{
    if copy_piece(out, room, x) is Ok {
        lemma_no_nul_concat(out, x);
    }
}

/// What a name copy that has not failed has written fits the field and holds
/// no nul, and none of the components it went through is the root or `..`.
proof fn lemma_copy_components_name(comps: Seq<Seq<u8>>, n: nat, room: nat)
    requires
        n <= comps.len(),
    ensures
        ({
            let st = copy_components(comps, n, room, false);
            &&& st.0.len() <= room
            &&& !has_nul(st.0)
            &&& st.3 is None ==> forall|i: int|
                0 <= i < n ==> comps[i] != root() && comps[i] != dot_dot()
        }),
    decreases n,
{
    if n > 0 {
        lemma_copy_components_name(comps, (n - 1) as nat, room);
        let prev = copy_components(comps, (n - 1) as nat, room, false);
        lemma_copy_piece_ok(prev.0, room, root());
        if let Ok(out1) = copy_piece(prev.0, room, root()) {
            lemma_copy_piece_ok(out1, room, comps[n - 1]);
        }
        lemma_copy_piece_ok(prev.0, room, comps[n - 1]);
    } else {
        assert(!has_nul(Seq::<u8>::empty()));
    }
}

/// A path that is accepted as a name in an archive has no root and no `..`
/// among its components, and what it writes fits the field and holds no nul.
pub proof fn law_accepted_name_is_relative(p: Seq<u8>, room: nat)
    ensures
        path_copy(p, room, false).1 is None ==> forall|i: int|
            0 <= i < components(p).len() ==> components(p)[i] != root() && components(p)[i]
                != dot_dot(),
        path_copy(p, room, false).1 is None ==> path_copy(p, room, false).0.len() <= room
            && !has_nul(path_copy(p, room, false).0),
{
    reveal(path_copy);
    let comps = components(p);
    lemma_copy_components_name(comps, comps.len(), room);
    let st = copy_components(comps, comps.len(), room, false);
    lemma_copy_piece_ok(st.0, room, root());
}

proof fn lemma_copy_components_fit(comps: Seq<Seq<u8>>, n: nat, room: nat, is_link: bool)
    ensures
        copy_components(comps, n, room, is_link).0.len() <= room,
    decreases n,
{
    if n > 0 {
        lemma_copy_components_fit(comps, (n - 1) as nat, room, is_link);
    }
}

/// What copying a path writes fits the field.
pub proof fn lemma_path_copy_fits(p: Seq<u8>, room: nat, is_link: bool)
    ensures
        path_copy(p, room, is_link).0.len() <= room,
{
    reveal(path_copy);
    lemma_copy_components_fit(components(p), components(p).len(), room, is_link);
}

/// Copying into a field that lies within `h` leaves its length as it was.
pub proof fn lemma_field_after_copy_len(h: Seq<u8>, start: int, room: nat, out: Seq<u8>)
    requires
        0 <= start,
        start + room <= h.len(),
        out.len() <= room,
    ensures
        field_after_copy(h, start, room, out).len() == h.len(),
{
}

/// Once the copy of components has failed, later components change nothing.
proof fn lemma_copy_components_stuck(comps: Seq<Seq<u8>>, k: nat, n: nat, room: nat, is_link: bool)
    requires
        k <= n,
        copy_components(comps, k, room, is_link).3 is Some,
    ensures
        copy_components(comps, n, room, is_link) == copy_components(comps, k, room, is_link),
    decreases n - k,
{
    if k < n {
        lemma_copy_components_stuck(comps, k, (n - 1) as nat, room, is_link);
    }
}

proof fn lemma_parts_components_nonempty(ps: Seq<Seq<u8>>)
    ensures
        forall|q: int|
            0 <= q < parts_components(ps).len() ==> #[trigger] parts_components(ps)[q].len() > 0,
    decreases ps.len(),
{
    if ps.len() > 0 {
        lemma_parts_components_nonempty(ps.drop_last());
        let prev = parts_components(ps.drop_last());
        let add = part_component(ps.last(), (ps.len() - 1) as nat);
        assert forall|q: int|
            0 <= q < parts_components(ps).len() implies #[trigger] parts_components(ps)[q].len() > 0 by {
            if q < prev.len() {
                assert(parts_components(ps)[q] == prev[q]);
            } else {
                assert(parts_components(ps)[q] == add[q - prev.len()]);
            }
        }
    }
}

/// Every component is a non-empty byte string.
pub proof fn lemma_components_nonempty(p: Seq<u8>)
    ensures
        forall|q: int| 0 <= q < components(p).len() ==> #[trigger] components(p)[q].len() > 0,
{
    lemma_parts_components_nonempty(path_parts(p));
    let lead: Seq<Seq<u8>> = if p.len() > 0 && p[0] == 47u8 {
        seq![root()]
    } else {
        seq![]
    };
    assert forall|q: int| 0 <= q < components(p).len() implies #[trigger] components(p)[q].len() > 0 by {
        if q < lead.len() {
        } else {
            assert(components(p)[q] == parts_components(path_parts(p))[q - lead.len()]);
        }
    }
}

/// A byte string without slashes is one part.
proof fn lemma_path_parts_plain(q: Seq<u8>)
    requires
        forall|i: int| 0 <= i < q.len() ==> q[i] != 47u8,
    ensures
        path_parts(q) == seq![q],
    decreases q.len(),
{
    if q.len() > 0 {
        lemma_path_parts_plain(q.drop_last());
        assert(q.last() == q[q.len() - 1]);
        assert(q.drop_last().push(q.last()) =~= q);
        assert(seq![q.drop_last()].update(0, q.drop_last().push(q.last())) =~= seq![q]);
    } else {
        assert(q =~= Seq::<u8>::empty());
    }
}

/// A name without slashes or nul bytes, at least three bytes long, is copied
/// whole where it fits the field, and refused as too long where it does not.
pub proof fn law_plain_name_copy(q: Seq<u8>, room: nat)
    requires
        q.len() >= 3,
        forall|i: int| 0 <= i < q.len() ==> q[i] != 47u8 && q[i] != 0u8,
    ensures
        path_copy(q, room, false) == if q.len() <= room {
            (q, None::<TarError>)
        } else {
            (Seq::<u8>::empty(), Some(TarError::ValueTooLong))
        },
{
    reveal(path_copy);
    lemma_path_parts_plain(q);
    let ps = path_parts(q);
    assert(ps.drop_last() =~= Seq::<Seq<u8>>::empty());
    assert(q != dot()) by {
        assert(q.len() != dot().len());
    }
    assert(part_component(q, 0) =~= seq![q]);
    assert(parts_components(ps.drop_last()) =~= Seq::<Seq<u8>>::empty());
    assert(parts_components(ps) =~= seq![q]);
    assert(q[0] != 47u8);
    assert(components(q) =~= seq![q]);
    let comps = components(q);
    assert(comps[0] != root()) by {
        if comps[0] == root() {
            assert(q[0] == root()[0]);
        }
    }
    assert(comps[0] != dot_dot());
    assert(!has_nul(q));
    assert(Seq::<u8>::empty() + q =~= q);
    assert(copy_components(comps, 0, room, false) == (Seq::<u8>::empty(), false, false, None::<TarError>));
}

/// Joining is associative: joining `c` onto `b` joined onto `a` is joining
/// onto `a` the join of `c` onto `b`.
pub proof fn lemma_join_assoc(a: Seq<u8>, b: Seq<u8>, c: Seq<u8>)
    ensures
        join(join(a, b), c) == join(a, join(b, c)),
{
    if c.len() > 0 && c[0] == 47u8 {
    } else if b.len() > 0 && b[0] == 47u8 {
        assert(join(b, c)[0] == b[0]);
    } else if b.len() == 0 {
        assert(join(b, c) =~= c);
        if a.len() > 0 && a.last() != 47u8 {
            assert((a + root() + b).last() == 47u8);
            assert(join(join(a, b), c) =~= a + root() + b + c);
        } else {
            assert(a + b =~= a);
        }
    } else {
        let ab = join(a, b);
        assert(ab.len() > 0 && ab.last() == b.last());
        if b.last() != 47u8 {
            assert(join(b, c)[0] == b[0]);
            if a.len() > 0 && a.last() != 47u8 {
                assert(join(join(a, b), c) =~= a + root() + (b + root() + c));
            } else {
                assert(join(join(a, b), c) =~= a + (b + root() + c));
            }
        } else {
            assert(join(b, c)[0] == b[0]);
            if a.len() > 0 && a.last() != 47u8 {
                assert(join(join(a, b), c) =~= a + root() + (b + c));
            } else {
                assert(join(join(a, b), c) =~= a + (b + c));
            }
        }
    }
}

/// Joining onto the empty path changes nothing.
pub proof fn lemma_join_empty(c: Seq<u8>)
    ensures
        join(Seq::<u8>::empty(), c) == c,
{
    assert(Seq::<u8>::empty() + c =~= c);
}

proof fn lemma_path_parts_nonempty(p: Seq<u8>)
    ensures
        path_parts(p).len() >= 1,
    decreases p.len(),
{
    if p.len() > 0 {
        lemma_path_parts_nonempty(p.drop_last());
    }
}

spec fn ranges_spell(r: Seq<(usize, usize)>, p: Seq<u8>, target: Seq<Seq<u8>>) -> bool {
    &&& r.len() == target.len()
    &&& forall|k: int|
        0 <= k < r.len() ==> {
            &&& (#[trigger] r[k]).0 <= r[k].1 <= p.len()
            &&& p.subrange(r[k].0 as int, r[k].1 as int) == target[k]
        }
}

/// Appends the component that the part `p[start..end]` at index `j` contributes.
fn push_part(r: &mut Vec<(usize, usize)>, p: &[u8], start: usize, end: usize, j: usize, Ghost(
    target,
): Ghost<Seq<Seq<u8>>>)
    requires
        start <= end <= p@.len(),
        ranges_spell(old(r)@, p@, target),
    ensures
        ranges_spell(
            final(r)@,
            p@,
            target + part_component(p@.subrange(start as int, end as int), j as nat),
        ),
{
    let ghost part = p@.subrange(start as int, end as int);
    if end == start {
        assert(target + part_component(part, j as nat) =~= target);
    } else if end - start == 1 && p[start] == 46u8 && j != 0 {
        assert(part =~= dot());
        assert(target + part_component(part, j as nat) =~= target);
    } else {
        assert(!(part == dot() && j != 0)) by {
            if part == dot() {
                assert(part.len() == 1);
                assert(part[0] == p@[start as int]);
            }
        }
        r.push((start, end));
        assert(target + part_component(part, j as nat) =~= target.push(part));
    }
}

/// The components of `p`, each as the range of `p` that spells it.
pub fn path_components(p: &[u8]) -> (r: Vec<(usize, usize)>)
    ensures
        r@.len() == components(p@).len(),
        forall|k: int|
            0 <= k < r@.len() ==> {
                &&& (#[trigger] r@[k]).0 <= r@[k].1 <= p@.len()
                &&& p@.subrange(r@[k].0 as int, r@[k].1 as int) == components(p@)[k]
            },
{
    let mut r: Vec<(usize, usize)> = Vec::new();
    let n = p.len();
    let ghost lead: Seq<Seq<u8>> = if n > 0 && p@[0] == 47u8 {
        seq![root()]
    } else {
        seq![]
    };
    if n > 0 && p[0] == 47u8 {
        r.push((0, 1));
        assert(p@.subrange(0, 1) =~= root());
    }
    let ghost mut done: Seq<Seq<u8>> = seq![];
    let mut start: usize = 0;
    let mut j: usize = 0;
    let mut i: usize = 0;
    assert(p@.take(0) =~= Seq::<u8>::empty());
    assert(p@.subrange(0, 0) =~= Seq::<u8>::empty());
    assert(path_parts(Seq::<u8>::empty()) =~= done.push(Seq::<u8>::empty()));
    while i < n
        invariant
            n == p@.len(),
            start <= i <= n,
            j <= i,
            j == done.len(),
            path_parts(p@.take(i as int)) == done.push(p@.subrange(start as int, i as int)),
            ranges_spell(r@, p@, lead + parts_components(done)),
        decreases n - i,
    {
        let ghost cur = p@.subrange(start as int, i as int);
        proof {
            assert(p@.take(i + 1).drop_last() =~= p@.take(i as int));
            assert(p@.take(i + 1).last() == p@[i as int]);
        }
        if p[i] == 47u8 {
            push_part(&mut r, p, start, i, j, Ghost(lead + parts_components(done)));
            proof {
                assert(done.push(cur).drop_last() =~= done);
                assert(lead + parts_components(done) + part_component(cur, j as nat) =~= lead
                    + parts_components(done.push(cur)));
                done = done.push(cur);
                assert(p@.subrange((i + 1) as int, (i + 1) as int) =~= Seq::<u8>::empty());
            }
            start = i + 1;
            j = j + 1;
        } else {
            proof {
                assert(p@.subrange(start as int, i + 1) =~= cur.push(p@[i as int]));
                assert(done.push(cur).update(done.len() as int, cur.push(p@[i as int])) =~= done.push(
                    p@.subrange(start as int, i + 1),
                ));
            }
        }
        i = i + 1;
    }
    let ghost last = p@.subrange(start as int, n as int);
    push_part(&mut r, p, start, n, j, Ghost(lead + parts_components(done)));
    proof {
        assert(p@.take(n as int) =~= p@);
        assert(done.push(last).drop_last() =~= done);
        assert(lead + parts_components(done) + part_component(last, j as nat) =~= components(p@));
    }
    r
}

/// Copies `src[a..b]` into the field of `room` bytes at `start`, after the
/// `pos` bytes already there, unless it does not fit or holds a nul byte.
fn copy_bytes(
    bytes: &mut [u8; 512],
    start: usize,
    room: usize,
    pos: usize,
    src: &[u8],
    a: usize,
    b: usize,
    Ghost(h): Ghost<Seq<u8>>,
    Ghost(out): Ghost<Seq<u8>>,
) -> (r: Result<usize, TarError>)
    requires
        start + room <= 512,
        h.len() == 512,
        pos == out.len(),
        pos <= room,
        a < b <= src@.len(),
        old(bytes)@ == field_after_copy(h, start as int, room as nat, out),
    ensures
        match copy_piece(out, room as nat, src@.subrange(a as int, b as int)) {
            Ok(o) => r == Ok::<usize, TarError>(o.len() as usize) && final(bytes)@
                == field_after_copy(h, start as int, room as nat, o),
            Err(e) => r == Err::<usize, TarError>(e) && final(bytes)@ == old(bytes)@,
        },
{
    let ghost x = src@.subrange(a as int, b as int);
    if b - a > room - pos {
        return Err(TarError::ValueTooLong);
    }
    let mut m: usize = a;
    while m < b
        invariant
            a <= m <= b <= src@.len(),
            pos == out.len(),
            b - a <= room - pos,
            bytes@ == old(bytes)@,
            x == src@.subrange(a as int, b as int),
            forall|k: int| 0 <= k < m - a ==> x[k] != 0u8,
        decreases b - m,
    {
        if src[m] == 0 {
            assert(src@[m as int] == 0u8);
            assert(x[m - a] == src@[m as int]);
            assert(x[m - a] == 0u8);
            return Err(TarError::ValueContainsNul);
        }
        m = m + 1;
    }
    assert(!has_nul(x));
    let mut k: usize = 0;
    let ghost before = bytes@;
    while k < b - a
        invariant
            a <= b <= src@.len(),
            b - a <= room - pos,
            start + room <= 512,
            x == src@.subrange(a as int, b as int),
            bytes@.len() == 512,
            before.len() == 512,
            bytes@ == splice(before, (start + pos) as int, x.take(k as int)),
            k <= b - a,
        decreases b - a - k,
    {
        bytes[start + pos + k] = src[a + k];
        k = k + 1;
        assert(bytes@ =~= splice(before, (start + pos) as int, x.take(k as int)));
    }
    assert(x.take((b - a) as int) =~= x);
    let end = pos + (b - a);
    if end < room {
        bytes[start + end] = 0;
    }
    proof {
        let o = out + x;
        if x.len() == 0 {
            assert(o =~= out);
            assert(bytes@ =~= field_after_copy(h, start as int, room as nat, o));
        } else {
            let target = field_after_copy(h, start as int, room as nat, o);
            assert(before == field_after_copy(h, start as int, room as nat, out));
            assert forall|i: int| 0 <= i < 512 implies bytes@[i] == target[i] by {
                if i < start {
                } else if i < start + pos {
                    assert(before[i] == out[i - start]);
                } else if i < start + end {
                } else if i == start + end && end < room {
                } else {
                    assert(i > start + pos);
                }
            }
            assert(bytes@ =~= target);
        }
    }
    Ok(end)
}

/// Copies the path `p` into the field of `room` bytes at `start` of a header,
/// component by component, as `path_copy` describes.
pub fn copy_path_into(bytes: &mut [u8; 512], start: usize, room: usize, p: &[u8], is_link: bool) -> (res:
    Result<(), TarError>)
    requires
        start + room <= 512,
    ensures
        ({
            let (out, err) = path_copy(p@, room as nat, is_link);
            &&& final(bytes)@ == field_after_copy(old(bytes)@, start as int, room as nat, out)
            &&& match err {
                None => res is Ok,
                Some(e) => res == Err::<(), TarError>(e),
            }
        }),
{
    reveal(path_copy);
    let ghost h = bytes@;
    let ghost comps = components(p@);
    let ranges = path_components(p);
    let count = ranges.len();
    proof {
        lemma_components_nonempty(p@);
    }
    let slash: [u8; 1] = [47u8];
    assert(slash@.subrange(0, 1) =~= root());
    let mut pos: usize = 0;
    let mut needs_slash = false;
    let mut emitted = false;
    let ghost mut out: Seq<u8> = seq![];
    let mut k: usize = 0;
    while k < count
        invariant
            k <= count,
            count == comps.len(),
            comps == components(p@),
            ranges@.len() == count,
            forall|q: int|
                0 <= q < ranges@.len() ==> {
                    &&& (#[trigger] ranges@[q]).0 <= ranges@[q].1 <= p@.len()
                    &&& p@.subrange(ranges@[q].0 as int, ranges@[q].1 as int) == comps[q]
                },
            forall|q: int| 0 <= q < comps.len() ==> #[trigger] comps[q].len() > 0,
            slash@.subrange(0, 1) == root(),
            start + room <= 512,
            h.len() == 512,
            h == old(bytes)@,
            pos == out.len(),
            pos <= room,
            copy_components(comps, k as nat, room as nat, is_link) == (
                out,
                needs_slash,
                emitted,
                None::<TarError>,
            ),
            bytes@ == field_after_copy(h, start as int, room as nat, out),
        decreases count - k,
    {
        let (a, b) = ranges[k];
        let ghost c = comps[k as int];
        assert(c == p@.subrange(a as int, b as int));
        assert(c.len() > 0);
        let is_root = b - a == 1 && p[a] == 47u8;
        let is_parent = b - a == 2 && p[a] == 46u8 && p[a + 1] == 46u8;
        let is_cur = b - a == 1 && p[a] == 46u8;
        proof {
            if b - a == 1 {
                assert(c[0] == p@[a as int]);
                assert(is_root <==> c =~= root());
                assert(is_cur <==> c =~= dot());
                assert(c != dot_dot());
            } else if b - a == 2 {
                assert(c[0] == p@[a as int]);
                assert(c[1] == p@[a + 1]);
                assert(is_parent <==> c =~= dot_dot());
                assert(c != root() && c != dot());
            } else {
                assert(c != root() && c != dot() && c != dot_dot());
            }
        }
        if !is_link && is_root {
            proof {
                assert(c == root());
                assert(copy_components(comps, (k + 1) as nat, room as nat, is_link) == (
                    out,
                    needs_slash,
                    emitted,
                    Some(TarError::PathNotRelative),
                ));
                lemma_copy_components_stuck(comps, (k + 1) as nat, count as nat, room as nat, is_link);
                reveal(path_copy);
                assert(path_copy(p@, room as nat, is_link) == (out, Some(TarError::PathNotRelative)));
            }
            return Err(TarError::PathNotRelative);
        } else if !is_link && is_parent {
            proof {
                reveal(path_copy);
                lemma_copy_components_stuck(comps, (k + 1) as nat, count as nat, room as nat, is_link);
            }
            return Err(TarError::PathHasParentDir);
        } else if !is_link && is_cur && count != 1 {
        } else {
            if needs_slash {
                match copy_bytes(bytes, start, room, pos, &slash, 0, 1, Ghost(h), Ghost(out)) {
                    Ok(n) => {
                        proof {
                            out = out + root();
                        }
                        pos = n;
                    },
                    Err(e) => {
                        proof {
                            reveal(path_copy);
                            lemma_copy_components_stuck(comps, (k + 1) as nat, count as nat, room as nat, is_link);
                        }
                        return Err(e);
                    },
                }
            }
            match copy_bytes(bytes, start, room, pos, p, a, b, Ghost(h), Ghost(out)) {
                Ok(n) => {
                    proof {
                        out = out + c;
                    }
                    pos = n;
                },
                Err(e) => {
                    proof {
                        assert(copy_components(comps, (k + 1) as nat, room as nat, is_link) == (
                            out,
                            needs_slash,
                            emitted,
                            Some(e),
                        ));
                        lemma_copy_components_stuck(comps, (k + 1) as nat, count as nat, room as nat, is_link);
                        reveal(path_copy);
                        assert(path_copy(p@, room as nat, is_link) == (out, Some(e)));
                    }
                    return Err(e);
                },
            }
            needs_slash = needs_slash || !is_root;
            emitted = true;
        }
        k = k + 1;
    }
    if !emitted {
        return Err(TarError::PathEmpty);
    }
    let n = p.len();
    if n > 0 && p[n - 1] == 47u8 {
        match copy_bytes(bytes, start, room, pos, &slash, 0, 1, Ghost(h), Ghost(out)) {
            Ok(_) => {},
            Err(e) => {
                return Err(e);
            },
        }
    }
    Ok(())
}

/// The path `p` joined onto `base`.
pub fn join_path(base: &[u8], p: &[u8]) -> (r: Vec<u8>)
    ensures
        r@ == join(base@, p@),
{
    let mut r: Vec<u8> = Vec::new();
    if p.len() > 0 && p[0] == 47u8 {
        append_bytes(&mut r, p);
        return r;
    }
    append_bytes(&mut r, base);
    if base.len() > 0 && base[base.len() - 1] != 47u8 {
        r.push(47u8);
    }
    append_bytes(&mut r, p);
    r
}

/// Appends the bytes of `src` to `dst`.
pub fn append_bytes(dst: &mut Vec<u8>, src: &[u8])
    ensures
        final(dst)@ == old(dst)@ + src@,
{
    let mut i: usize = 0;
    while i < src.len()
        invariant
            i <= src@.len(),
            dst@ == old(dst)@ + src@.take(i as int),
        decreases src@.len() - i,
    {
        dst.push(src[i]);
        i = i + 1;
        assert(dst@ =~= old(dst)@ + src@.take(i as int));
    }
    assert(src@.take(src@.len() as int) =~= src@);
}

} // verus!
