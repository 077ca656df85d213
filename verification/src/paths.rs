//! Unix path bytes: joining a name under a base directory, and whether one
//! path lies under another by its components.
//!
//! A path's components are read as on Unix: a leading '/' is the root
//! component, written here as "/"; a leading "." directly followed by '/'
//! or the end is the current-directory component "."; the rest is split at
//! each '/', and empty pieces and "." pieces are left out.

use crate::header::push_bytes;
use vstd::prelude::*;
use vstd::slice::slice_to_vec;

verus! {

/// The component list of one piece between separators: nothing for an
/// empty piece or ".", else the piece itself.
pub open spec fn piece_component(piece: Seq<u8>) -> Seq<Seq<u8>> {
    if piece.len() == 0 || piece == seq![46u8] {
        seq![]
    } else {
        seq![piece]
    }
}

/// The components of `rest`, where `cur` holds the bytes already read of
/// the piece in progress.
pub open spec fn split_components(rest: Seq<u8>, cur: Seq<u8>) -> Seq<Seq<u8>>
    decreases rest.len(),
{
    if rest.len() == 0 {
        piece_component(cur)
    } else if rest[0] == 47u8 {
        piece_component(cur) + split_components(rest.drop_first(), seq![])
    } else {
        split_components(rest.drop_first(), cur.push(rest[0]))
    }
}

/// Whether `p` is absolute (starts with '/').
pub open spec fn has_root(p: Seq<u8>) -> bool {
    p.len() > 0 && p[0] == 47u8
}

/// Whether the relative path `p` starts with a "." component.
pub open spec fn starts_with_cur_dir(p: Seq<u8>) -> bool {
    !has_root(p) && p.len() > 0 && p[0] == 46u8 && (p.len() == 1 || p[1] == 47u8)
}

/// The components of the path `p`.
pub open spec fn path_components(p: Seq<u8>) -> Seq<Seq<u8>> {
    if has_root(p) {
        seq![seq![47u8]] + split_components(p.drop_first(), seq![])
    } else if starts_with_cur_dir(p) {
        seq![seq![46u8]] + split_components(p.drop_first(), seq![])
    } else {
        split_components(p, seq![])
    }
}

/// `name` joined under `base`: an absolute `name` replaces `base`;
/// otherwise a '/' is put between them unless `base` is empty or already
/// ends with one.
pub open spec fn join_path(base: Seq<u8>, name: Seq<u8>) -> Seq<u8> {
    if has_root(name) {
        name
    } else if base.len() > 0 && base.last() != 47u8 {
        base + seq![47u8] + name
    } else {
        base + name
    }
}

/// The parent-directory component "..".
pub open spec fn parent_component() -> Seq<u8> {
    seq![46u8, 46u8]
}

/// One step of resolving components lexically: "." is dropped; ".." drops
/// the component before it where that is a named one, stays at the root
/// "/", and is kept where nothing named precedes it; any other component
/// is appended.
pub open spec fn resolve_step(stack: Seq<Seq<u8>>, c: Seq<u8>) -> Seq<Seq<u8>> {
    if c == seq![46u8] {
        stack
    } else if c == parent_component() {
        if stack.len() == 0 || stack.last() == parent_component() {
            stack.push(c)
        } else if stack.last() == seq![47u8] {
            stack
        } else {
            stack.drop_last()
        }
    } else {
        stack.push(c)
    }
}

/// The components `cs` with "." and ".." resolved lexically, left to right.
pub open spec fn resolve(cs: Seq<Seq<u8>>) -> Seq<Seq<u8>>
    decreases cs.len(),
{
    if cs.len() == 0 {
        seq![]
    } else {
        resolve_step(resolve(cs.drop_last()), cs.last())
    }
}

/// The components of `p` with "." and ".." resolved lexically.
pub open spec fn lexical_components(p: Seq<u8>) -> Seq<Seq<u8>> {
    resolve(path_components(p))
}

/// Whether `p` lies under `base` once "." and ".." are resolved in both:
/// both are absolute or both relative, the resolved components of `base`
/// begin those of `p`, and no ".." follows them in `p`.
pub open spec fn path_within(p: Seq<u8>, base: Seq<u8>) -> bool {
    let pc = lexical_components(p);
    let bc = lexical_components(base);
    &&& has_root(p) == has_root(base)
    &&& bc.len() <= pc.len()
    &&& pc.take(bc.len() as int) == bc
    &&& !pc.skip(bc.len() as int).contains(parent_component())
}

/// Splitting at a separator: the components of `x`, a '/', then `y` are
/// those of `x` followed by those of `y`.
proof fn lemma_split_at_separator(x: Seq<u8>, y: Seq<u8>, cur: Seq<u8>)
    ensures
        split_components(x + seq![47u8] + y, cur) == split_components(x, cur)
            + split_components(y, seq![]),
    decreases x.len(),
{
    let whole = x + seq![47u8] + y;
    if x.len() == 0 {
        assert(whole =~= seq![47u8] + y);
        assert(whole.drop_first() =~= y);
    } else {
        assert(whole.drop_first() =~= x.drop_first() + seq![47u8] + y);
        assert(whole[0] == x[0]);
        if x[0] == 47u8 {
            lemma_split_at_separator(x.drop_first(), y, seq![]);
            assert(split_components(whole, cur) =~= split_components(x, cur) + split_components(
                y,
                seq![],
            ));
        } else {
            lemma_split_at_separator(x.drop_first(), y, cur.push(x[0]));
        }
    }
}

/// The components of `d`, a '/', then `y`, for a non-empty `d`: those of
/// `d` followed by the components of `y`.
proof fn lemma_components_append(d: Seq<u8>, y: Seq<u8>)
    requires
        d.len() > 0,
    ensures
        path_components(d + seq![47u8] + y) == path_components(d) + split_components(y, seq![]),
{
    let whole = d + seq![47u8] + y;
    assert(whole[0] == d[0]);
    assert(whole.len() > 1);
    assert(whole[1] == (if d.len() == 1 { 47u8 } else { d[1] }));
    if has_root(d) || starts_with_cur_dir(d) {
        assert(whole.drop_first() =~= d.drop_first() + seq![47u8] + y);
        lemma_split_at_separator(d.drop_first(), y, seq![]);
        assert(path_components(whole) =~= path_components(d) + split_components(y, seq![]));
    } else {
        lemma_split_at_separator(d, y, seq![]);
        assert(path_components(whole) =~= path_components(d) + split_components(y, seq![]));
    }
}

/// The components of `name` joined under a non-empty `base`, for a name
/// that is not absolute: those of `base`, then those of `name` past any
/// leading "." .
proof fn lemma_join_components(base: Seq<u8>, name: Seq<u8>)
    requires
        base.len() > 0,
        !has_root(name),
    ensures
        path_components(join_path(base, name)) == path_components(base) + split_components(
            name,
            seq![],
        ),
{
    let j = join_path(base, name);
    if base.last() != 47u8 {
        lemma_components_append(base, name);
    } else {
        let d = base.drop_last();
        assert(split_components(Seq::<u8>::empty(), seq![]) =~= Seq::<Seq<u8>>::empty());
        if d.len() == 0 {
            assert(base =~= seq![47u8]);
            assert(j =~= seq![47u8] + name);
            assert(j.drop_first() =~= name);
            assert(base.drop_first() =~= Seq::<u8>::empty());
            assert(path_components(base) =~= seq![seq![47u8]]);
            assert(has_root(j));
        } else {
            assert(base =~= d + seq![47u8] + Seq::<u8>::empty());
            assert(j =~= d + seq![47u8] + name);
            lemma_components_append(d, Seq::<u8>::empty());
            lemma_components_append(d, name);
            assert(path_components(base) =~= path_components(d));
        }
    }
}

/// The components split from any bytes are never "." .
proof fn lemma_split_no_dot(rest: Seq<u8>, cur: Seq<u8>)
    ensures
        forall|k: int|
            0 <= k < split_components(rest, cur).len() ==> #[trigger] split_components(
                rest,
                cur,
            )[k] != seq![46u8],
    decreases rest.len(),
{
    if rest.len() == 0 {
        assert(split_components(rest, cur) == piece_component(cur));
    } else {
        if rest[0] == 47u8 {
            lemma_split_no_dot(rest.drop_first(), seq![]);
            let a = piece_component(cur);
            let b = split_components(rest.drop_first(), seq![]);
            assert forall|k: int| 0 <= k < (a + b).len() implies #[trigger] (a + b)[k] != seq![
                46u8,
            ] by {
                if k >= a.len() {
                    assert((a + b)[k] == b[k - a.len()]);
                }
            }
        } else {
            lemma_split_no_dot(rest.drop_first(), cur.push(rest[0]));
            assert(split_components(rest, cur) == split_components(
                rest.drop_first(),
                cur.push(rest[0]),
            ));
        }
    }
}

/// Appending components that are neither "." nor ".." to resolved ones
/// appends them unchanged.
proof fn lemma_resolve_append_plain(a: Seq<Seq<u8>>, b: Seq<Seq<u8>>)
    requires
        forall|k: int|
            0 <= k < b.len() ==> #[trigger] b[k] != seq![46u8] && b[k] != parent_component(),
    ensures
        resolve(a + b) == resolve(a) + b,
    decreases b.len(),
{
    if b.len() == 0 {
        assert(a + b =~= a);
        assert(resolve(a) + b =~= resolve(a));
    } else {
        lemma_resolve_append_plain(a, b.drop_last());
        assert((a + b).drop_last() =~= a + b.drop_last());
        assert((a + b).last() == b.last());
        assert(b.last() == b[b.len() - 1]);
        assert(resolve(a) + b =~= (resolve(a) + b.drop_last()).push(b.last()));
    }
}

/// Resolving components among which there is no ".." gives none.
proof fn lemma_resolve_no_parent(cs: Seq<Seq<u8>>)
    requires
        !cs.contains(parent_component()),
    ensures
        !resolve(cs).contains(parent_component()),
    decreases cs.len(),
{
    if cs.len() > 0 {
        assert(!cs.drop_last().contains(parent_component())) by {
            if cs.drop_last().contains(parent_component()) {
                let k = choose|k: int|
                    0 <= k < cs.drop_last().len() && cs.drop_last()[k] == parent_component();
                assert(cs[k] == parent_component());
            }
        }
        lemma_resolve_no_parent(cs.drop_last());
        let r = resolve(cs.drop_last());
        assert(cs.last() == cs[cs.len() - 1]);
        assert(cs.last() != parent_component());
        if cs.last() != seq![46u8] {
            assert(!r.push(cs.last()).contains(parent_component())) by {
                if r.push(cs.last()).contains(parent_component()) {
                    let k = choose|k: int|
                        0 <= k < r.push(cs.last()).len() && r.push(cs.last())[k]
                            == parent_component();
                    if k < r.len() {
                        assert(r[k] == parent_component());
                    }
                }
            }
        }
    }
}

/// A name that is neither absolute nor holds a ".." component, joined
/// under any base, stays under that base.
pub proof fn lemma_plain_name_stays_under_base(base: Seq<u8>, name: Seq<u8>)
    requires
        !has_root(name),
        !path_components(name).contains(parent_component()),
    ensures
        path_within(join_path(base, name), base),
{
    let j = join_path(base, name);
    if base.len() == 0 {
        assert(j == name);
        assert(split_components(base, seq![]) =~= Seq::<Seq<u8>>::empty());
        assert(path_components(base) =~= Seq::<Seq<u8>>::empty());
        assert(lexical_components(j).take(0) =~= Seq::<Seq<u8>>::empty());
        assert(lexical_components(j).skip(0) =~= lexical_components(j));
        lemma_resolve_no_parent(path_components(name));
    } else {
        assert(j[0] == base[0]);
        lemma_join_components(base, name);
        let sn = split_components(name, seq![]);
        lemma_split_no_dot(name, seq![]);
        assert forall|k: int| 0 <= k < sn.len() implies #[trigger] sn[k] != seq![46u8]
            && sn[k] != parent_component() by {
            if starts_with_cur_dir(name) {
                let r = name.drop_first();
                let dot = seq![46u8];
                assert(Seq::<u8>::empty().push(46u8) =~= dot);
                assert(sn == split_components(r, dot));
                assert(split_components(Seq::<u8>::empty(), seq![]) =~= Seq::<Seq<u8>>::empty());
                if r.len() == 0 {
                    assert(piece_component(dot) =~= Seq::<Seq<u8>>::empty());
                    assert(sn =~= Seq::<Seq<u8>>::empty());
                } else {
                    assert(r[0] == 47u8);
                    assert(piece_component(dot) =~= Seq::<Seq<u8>>::empty());
                    assert(piece_component(Seq::<u8>::empty()) =~= Seq::<Seq<u8>>::empty());
                    assert(split_components(r, dot) =~= split_components(r.drop_first(), seq![]));
                    assert(split_components(r, seq![]) =~= split_components(r.drop_first(), seq![]));
                }
                assert(sn =~= split_components(r, seq![]));
                assert(path_components(name) == seq![seq![46u8]] + split_components(r, seq![]));
                assert(path_components(name)[k + 1] == sn[k]);
            } else {
                assert(path_components(name) == sn);
                assert(path_components(name)[k] == sn[k]);
            }
        }
        lemma_resolve_append_plain(path_components(base), sn);
        assert(lexical_components(j).take(lexical_components(base).len() as int)
            =~= lexical_components(base));
        assert(lexical_components(j).skip(lexical_components(base).len() as int) =~= sn);
        assert(!sn.contains(parent_component())) by {
            if sn.contains(parent_component()) {
                let k = choose|k: int| 0 <= k < sn.len() && sn[k] == parent_component();
                assert(sn[k] != parent_component());
            }
        }
    }
}

/// The byte sequences held by a sequence of vectors.
pub open spec fn views(vs: Seq<Vec<u8>>) -> Seq<Seq<u8>> {
    vs.map_values(|v: Vec<u8>| v@)
}

/// `name` joined under `base`.
pub fn join(base: &[u8], name: &[u8]) -> (r: Vec<u8>)
    ensures
        r@ == join_path(base@, name@),
{
    let mut r: Vec<u8> = Vec::new();
    if name.len() > 0 && name[0] == 47u8 {
        push_bytes(&mut r, name);
        assert(r@ =~= join_path(base@, name@));
        return r;
    }
    push_bytes(&mut r, base);
    if base.len() > 0 && base[base.len() - 1] != 47u8 {
        r.push(47u8);
    }
    push_bytes(&mut r, name);
    assert(r@ =~= join_path(base@, name@));
    r
}

/// Whether the piece `cur` is "." .
fn is_dot(cur: &Vec<u8>) -> (r: bool)
    ensures
        r == (cur@ == seq![46u8]),
{
    let r = cur.len() == 1 && cur[0] == 46u8;
    if r {
        assert(cur@ =~= seq![46u8]);
    }
    r
}

/// The components of the path `p`.
pub fn components(p: &[u8]) -> (out: Vec<Vec<u8>>)
    ensures
        views(out@) == path_components(p@),
{
    let n = p.len();
    let mut out: Vec<Vec<u8>> = Vec::new();
    let mut i: usize = 0;
    if n > 0 && p[0] == 47u8 {
        let mut root: Vec<u8> = Vec::new();
        root.push(47u8);
        out.push(root);
        assert(views(out@) =~= seq![seq![47u8]]);
        i = 1;
    } else if n > 0 && p[0] == 46u8 && (n == 1 || p[1] == 47u8) {
        let mut dot: Vec<u8> = Vec::new();
        dot.push(46u8);
        out.push(dot);
        assert(views(out@) =~= seq![seq![46u8]]);
        i = 1;
    } else {
        assert(views(out@) =~= Seq::<Seq<u8>>::empty());
    }
    let mut cur: Vec<u8> = Vec::new();
    assert(p@.skip(i as int) =~= (if i == 1 { p@.drop_first() } else { p@ }));
    assert(path_components(p@) =~= views(out@) + split_components(p@.skip(i as int), cur@));
    while i < n
        invariant
            n == p@.len(),
            i <= n,
            path_components(p@) == views(out@) + split_components(p@.skip(i as int), cur@),
        decreases n - i,
    {
        let ghost before = views(out@);
        assert(p@.skip(i as int).drop_first() =~= p@.skip(i + 1));
        assert(p@.skip(i as int)[0] == p@[i as int]);
        if p[i] == 47u8 {
            if cur.len() > 0 && !is_dot(&cur) {
                out.push(cur);
                assert(views(out@) =~= before + piece_component(cur@));
            } else {
                assert(views(out@) =~= before + piece_component(cur@));
            }
            cur = Vec::new();
            assert(path_components(p@) =~= views(out@) + split_components(
                p@.skip(i + 1),
                cur@,
            ));
        } else {
            cur.push(p[i]);
        }
        i = i + 1;
    }
    let ghost before = views(out@);
    if cur.len() > 0 && !is_dot(&cur) {
        out.push(cur);
    }
    assert(views(out@) =~= before + piece_component(cur@));
    assert(views(out@) =~= path_components(p@));
    out
}

/// Whether `a` and `b` hold the same bytes.
fn same_bytes(a: &Vec<u8>, b: &Vec<u8>) -> (r: bool)
    ensures
        r == (a@ == b@),
{
    if a.len() != b.len() {
        return false;
    }
    let n = a.len();
    let mut i: usize = 0;
    while i < n
        invariant
            n == a@.len(),
            n == b@.len(),
            i <= n,
            forall|k: int| 0 <= k < i ==> a@[k] == b@[k],
        decreases n - i,
    {
        if a[i] != b[i] {
            return false;
        }
        i = i + 1;
    }
    assert(a@ =~= b@);
    true
}

/// Whether the component `c` is "..".
fn is_dot_dot(c: &Vec<u8>) -> (r: bool)
    ensures
        r == (c@ == parent_component()),
{
    let r = c.len() == 2 && c[0] == 46u8 && c[1] == 46u8;
    if r {
        assert(c@ =~= parent_component());
    }
    r
}

/// Whether the component `c` is the root "/".
fn is_root(c: &Vec<u8>) -> (r: bool)
    ensures
        r == (c@ == seq![47u8]),
{
    let r = c.len() == 1 && c[0] == 47u8;
    if r {
        assert(c@ =~= seq![47u8]);
    }
    r
}

/// The components of `p` with "." and ".." resolved lexically.
pub fn resolved_components(p: &[u8]) -> (out: Vec<Vec<u8>>)
    ensures
        views(out@) == lexical_components(p@),
{
    let cs = components(p);
    let n = cs.len();
    let mut out: Vec<Vec<u8>> = Vec::new();
    let mut i: usize = 0;
    assert(views(cs@).take(0) =~= Seq::<Seq<u8>>::empty());
    assert(views(out@) =~= Seq::<Seq<u8>>::empty());
    while i < n
        invariant
            n == cs@.len(),
            views(cs@) == path_components(p@),
            i <= n,
            views(out@) == resolve(views(cs@).take(i as int)),
        decreases n - i,
    {
        let ghost before = views(out@);
        let c = &cs[i];
        assert(views(cs@)[i as int] == c@);
        assert(views(cs@).take(i + 1).drop_last() =~= views(cs@).take(i as int));
        assert(views(cs@).take(i + 1).last() == c@);
        if is_dot(c) {
        } else if is_dot_dot(c) {
            let m = out.len();
            if m == 0 || is_dot_dot(&out[m - 1]) {
                out.push(slice_to_vec(c.as_slice()));
                assert(views(out@) =~= before.push(c@));
            } else if is_root(&out[m - 1]) {
            } else {
                out.pop();
                assert(views(out@) =~= before.drop_last());
            }
        } else {
            out.push(slice_to_vec(c.as_slice()));
            assert(views(out@) =~= before.push(c@));
        }
        i = i + 1;
    }
    assert(views(cs@).take(n as int) =~= views(cs@));
    out
}

/// Whether `p` lies under `base` once "." and ".." are resolved in both.
pub fn within(p: &[u8], base: &[u8]) -> (r: bool)
    ensures
        r == path_within(p@, base@),
{
    let p_root = p.len() > 0 && p[0] == 47u8;
    let base_root = base.len() > 0 && base[0] == 47u8;
    if p_root != base_root {
        return false;
    }
    let pc = resolved_components(p);
    let bc = resolved_components(base);
    if bc.len() > pc.len() {
        return false;
    }
    let m = bc.len();
    let mut i: usize = 0;
    while i < m
        invariant
            m == views(bc@).len(),
            m <= views(pc@).len(),
            views(pc@) == lexical_components(p@),
            views(bc@) == lexical_components(base@),
            i <= m,
            forall|k: int| 0 <= k < i ==> #[trigger] views(pc@)[k] == views(bc@)[k],
        decreases m - i,
    {
        if !same_bytes(&pc[i], &bc[i]) {
            assert(views(pc@)[i as int] == pc@[i as int]@);
            assert(views(bc@)[i as int] == bc@[i as int]@);
            assert(views(pc@).take(m as int)[i as int] != views(bc@)[i as int]);
            return false;
        }
        assert(views(pc@)[i as int] == pc@[i as int]@);
        assert(views(bc@)[i as int] == bc@[i as int]@);
        i = i + 1;
    }
    assert(views(pc@).take(m as int) =~= views(bc@));
    let n = pc.len();
    let ghost rest = views(pc@).skip(m as int);
    let mut j: usize = m;
    while j < n
        invariant
            n == views(pc@).len(),
            m == views(bc@).len(),
            views(pc@) == lexical_components(p@),
            views(bc@) == lexical_components(base@),
            views(pc@).take(m as int) == views(bc@),
            has_root(p@) == has_root(base@),
            m <= j <= n,
            rest == views(pc@).skip(m as int),
            forall|k: int| 0 <= k < j - m ==> #[trigger] rest[k] != parent_component(),
        decreases n - j,
    {
        assert(rest[j - m] == pc@[j as int]@);
        if is_dot_dot(&pc[j]) {
            assert(rest.contains(parent_component()));
            return false;
        }
        j = j + 1;
    }
    assert(!rest.contains(parent_component()));
    true
}

} // verus!
