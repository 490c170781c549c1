//! Path handling on the character level, the Unix way: components are the
//! non-empty pieces between `/`, `.` pieces are no components, and a
//! leading `/` makes a path absolute.
use vstd::prelude::*;
use crate::text::{chars_of, lemma_split_len, range_eq, split_on, split_ranges, string_of};

verus! {

/// Whether `p` is the piece `.`.
pub open spec fn is_dot(p: Seq<char>) -> bool {
    p.len() == 1 && p[0] == '.'
}

/// The pieces of `ps` that are components (non-empty, not `.`).
pub open spec fn normal_parts(ps: Seq<Seq<char>>) -> Seq<Seq<char>>
    decreases ps.len(),
{
    if ps.len() == 0 {
        ps
    } else if ps.last().len() > 0 && !is_dot(ps.last()) {
        normal_parts(ps.drop_last()).push(ps.last())
    } else {
        normal_parts(ps.drop_last())
    }
}

/// The components of path `s`.
pub open spec fn components(s: Seq<char>) -> Seq<Seq<char>> {
    normal_parts(split_on(s, '/'))
}

/// Whether path `s` is absolute.
pub open spec fn is_absolute(s: Seq<char>) -> bool {
    s.len() > 0 && s[0] == '/'
}

/// Whether `a` and `b` name the same path (same root, same components).
pub open spec fn same_path(a: Seq<char>, b: Seq<char>) -> bool {
    is_absolute(a) == is_absolute(b) && components(a) == components(b)
}

/// Whether `p` lies at or under `base` (`Path::starts_with`).
pub open spec fn path_starts_with(p: Seq<char>, base: Seq<char>) -> bool {
    is_absolute(p) == is_absolute(base) && components(base).len() <= components(p).len()
        && components(p).subrange(0, components(base).len() as int) == components(base)
}

/// Components written out, separated by `/`.
pub open spec fn joined_parts(cs: Seq<Seq<char>>) -> Seq<char>
    decreases cs.len(),
{
    if cs.len() == 0 {
        Seq::empty()
    } else if cs.len() == 1 {
        cs[0]
    } else {
        joined_parts(cs.drop_last()).push('/') + cs.last()
    }
}

/// The path a root flag and components spell.
pub open spec fn render(absolute: bool, cs: Seq<Seq<char>>) -> Seq<char> {
    if absolute {
        seq!['/'] + joined_parts(cs)
    } else {
        joined_parts(cs)
    }
}

/// The path without its last component (`Path::parent`); `None` for a
/// path without components.
pub open spec fn parent_of(s: Seq<char>) -> Option<Seq<char>> {
    if components(s).len() == 0 {
        None
    } else {
        Some(render(is_absolute(s), components(s).drop_last()))
    }
}

/// `dir` with the file name `name` appended (`Path::join` for a plain
/// name): a `/` goes between unless `dir` is empty or already ends in one.
pub open spec fn joined(dir: Seq<char>, name: Seq<char>) -> Seq<char> {
    if dir.len() == 0 || dir.last() == '/' {
        dir + name
    } else {
        dir.push('/') + name
    }
}

/// `rest` pushed onto `base` (`Path::join`, `PathBuf::push`): an
/// absolute `rest` replaces the base.
pub open spec fn pushed(base: Seq<char>, rest: Seq<char>) -> Seq<char> {
    if is_absolute(rest) {
        rest
    } else {
        joined(base, rest)
    }
}

/// The component ranges of `s`.
pub fn component_ranges(s: &Vec<char>) -> (r: Vec<(usize, usize)>)
    ensures
        r.len() == components(s@).len(),
        forall|k: int|
            0 <= k < r.len() ==> (#[trigger] r[k]).0 <= r[k].1 <= s.len() && s@.subrange(
                r[k].0 as int,
                r[k].1 as int,
            ) == components(s@)[k],
{
    let n = s.len();
    let pieces = split_ranges(s, 0, n, '/');
    let ghost ps = split_on(s@, '/');
    proof {
        assert(s@.subrange(0, n as int) =~= s@);
    }
    let mut out: Vec<(usize, usize)> = Vec::new();
    let mut k: usize = 0;
    while k < pieces.len()
        invariant
            k <= pieces.len() == ps.len(),
            ps == split_on(s@, '/'),
            n == s.len(),
            forall|j: int|
                0 <= j < pieces.len() ==> (#[trigger] pieces[j]).0 <= pieces[j].1 <= n
                    && s@.subrange(pieces[j].0 as int, pieces[j].1 as int) == ps[j],
            out.len() == normal_parts(ps.subrange(0, k as int)).len(),
            forall|j: int|
                0 <= j < out.len() ==> (#[trigger] out[j]).0 <= out[j].1 <= n && s@.subrange(
                    out[j].0 as int,
                    out[j].1 as int,
                ) == normal_parts(ps.subrange(0, k as int))[j],
        decreases pieces.len() - k,
    {
        let (a, b) = pieces[k];
        let ghost pre = ps.subrange(0, k as int);
        let ghost nxt = ps.subrange(0, k + 1);
        proof {
            assert(nxt.drop_last() =~= pre);
            assert(nxt.last() == ps[k as int]);
        }
        let keep = b > a && !(b - a == 1 && s[a] == '.');
        proof {
            let p = ps[k as int];
            assert(p.len() == b - a);
            if b > a {
                assert(p[0] == s@[a as int]);
            }
        }
        if keep {
            out.push((a, b));
        }
        k = k + 1;
    }
    proof {
        assert(ps.subrange(0, pieces.len() as int) =~= ps);
    }
    out
}

fn ranges_equal(s: &Vec<char>, a: (usize, usize), t: &Vec<char>, b: (usize, usize)) -> (r: bool)
    requires
        a.0 <= a.1 <= s.len(),
        b.0 <= b.1 <= t.len(),
    ensures
        r == (s@.subrange(a.0 as int, a.1 as int) == t@.subrange(b.0 as int, b.1 as int)),
{
    if a.1 - a.0 != b.1 - b.0 {
        proof {
            assert(s@.subrange(a.0 as int, a.1 as int).len() != t@.subrange(
                b.0 as int,
                b.1 as int,
            ).len());
        }
        return false;
    }
    let len = a.1 - a.0;
    let mut i: usize = 0;
    proof {
        assert(s@.subrange(a.0 as int, a.0 as int) =~= t@.subrange(b.0 as int, b.0 as int));
    }
    while i < len
        invariant
            i <= len == a.1 - a.0 == b.1 - b.0,
            a.0 <= a.1 <= s.len(),
            b.0 <= b.1 <= t.len(),
            s@.subrange(a.0 as int, a.0 + i) == t@.subrange(b.0 as int, b.0 + i),
        decreases len - i,
    {
        if s[a.0 + i] != t[b.0 + i] {
            proof {
                assert(s@.subrange(a.0 as int, a.1 as int)[i as int] != t@.subrange(
                    b.0 as int,
                    b.1 as int,
                )[i as int]);
            }
            return false;
        }
        proof {
            assert(s@.subrange(a.0 as int, a.0 + i + 1) =~= s@.subrange(a.0 as int, a.0 + i).push(
                s@[a.0 + i],
            ));
            assert(t@.subrange(b.0 as int, b.0 + i + 1) =~= t@.subrange(b.0 as int, b.0 + i).push(
                t@[b.0 + i],
            ));
        }
        i = i + 1;
    }
    true
}

/// Whether the first `count` components of `p` equal those of `q` (both
/// having at least `count`).
fn prefix_components_equal(
    p: &Vec<char>,
    pr: &Vec<(usize, usize)>,
    q: &Vec<char>,
    qr: &Vec<(usize, usize)>,
    count: usize,
) -> (r: bool)
    requires
        count <= pr.len() == components(p@).len(),
        count <= qr.len() == components(q@).len(),
        forall|k: int|
            0 <= k < pr.len() ==> (#[trigger] pr[k]).0 <= pr[k].1 <= p.len() && p@.subrange(
                pr[k].0 as int,
                pr[k].1 as int,
            ) == components(p@)[k],
        forall|k: int|
            0 <= k < qr.len() ==> (#[trigger] qr[k]).0 <= qr[k].1 <= q.len() && q@.subrange(
                qr[k].0 as int,
                qr[k].1 as int,
            ) == components(q@)[k],
    ensures
        r == (components(p@).subrange(0, count as int) == components(q@).subrange(
            0,
            count as int,
        )),
{
    let mut i: usize = 0;
    while i < count
        invariant
            i <= count,
            count <= pr.len() == components(p@).len(),
            count <= qr.len() == components(q@).len(),
            forall|k: int|
                0 <= k < pr.len() ==> (#[trigger] pr[k]).0 <= pr[k].1 <= p.len() && p@.subrange(
                    pr[k].0 as int,
                    pr[k].1 as int,
                ) == components(p@)[k],
            forall|k: int|
                0 <= k < qr.len() ==> (#[trigger] qr[k]).0 <= qr[k].1 <= q.len() && q@.subrange(
                    qr[k].0 as int,
                    qr[k].1 as int,
                ) == components(q@)[k],
            forall|k: int| 0 <= k < i ==> components(p@)[k] == components(q@)[k],
        decreases count - i,
    {
        if !ranges_equal(p, pr[i], q, qr[i]) {
            proof {
                assert(components(p@).subrange(0, count as int)[i as int] != components(
                    q@,
                ).subrange(0, count as int)[i as int]);
            }
            return false;
        }
        i = i + 1;
    }
    proof {
        assert(components(p@).subrange(0, count as int) =~= components(q@).subrange(
            0,
            count as int,
        ));
    }
    true
}

/// Whether `p` lies at or under `base`, component-wise.
pub fn starts_with(p: &str, base: &str) -> (r: bool)
    ensures
        r == path_starts_with(p@, base@),
{
    let pc = chars_of(p);
    let bc = chars_of(base);
    let pa = pc.len() > 0 && pc[0] == '/';
    let ba = bc.len() > 0 && bc[0] == '/';
    if pa != ba {
        return false;
    }
    let pr = component_ranges(&pc);
    let br = component_ranges(&bc);
    if br.len() > pr.len() {
        return false;
    }
    let same = prefix_components_equal(&pc, &pr, &bc, &br, br.len());
    proof {
        assert(components(bc@).subrange(0, br.len() as int) =~= components(bc@));
    }
    same
}

/// Whether `a` and `b` name the same path, component-wise.
pub fn path_eq(a: &str, b: &str) -> (r: bool)
    ensures
        r == same_path(a@, b@),
{
    let ac = chars_of(a);
    let bc = chars_of(b);
    let aa = ac.len() > 0 && ac[0] == '/';
    let ba = bc.len() > 0 && bc[0] == '/';
    if aa != ba {
        return false;
    }
    let ar = component_ranges(&ac);
    let br = component_ranges(&bc);
    if ar.len() != br.len() {
        return false;
    }
    let same = prefix_components_equal(&ac, &ar, &bc, &br, ar.len());
    proof {
        assert(components(ac@).subrange(0, ar.len() as int) =~= components(ac@));
        assert(components(bc@).subrange(0, br.len() as int) =~= components(bc@));
    }
    same
}

fn push_range(out: &mut Vec<char>, s: &Vec<char>, a: usize, b: usize)
    requires
        a <= b <= s.len(),
    ensures
        final(out)@ == old(out)@ + s@.subrange(a as int, b as int),
{
    let mut i = a;
    while i < b
        invariant
            a <= i <= b <= s.len(),
            out@ == old(out)@ + s@.subrange(a as int, i as int),
        decreases b - i,
    {
        out.push(s[i]);
        proof {
            assert(s@.subrange(a as int, i + 1) =~= s@.subrange(a as int, i as int).push(
                s@[i as int],
            ));
        }
        i = i + 1;
    }
}

/// The first `keep` components of `pc` (whose component ranges are `pr`)
/// written out under `pc`'s root flag.
fn render_first(pc: &Vec<char>, pr: &Vec<(usize, usize)>, keep: usize) -> (out: Vec<char>)
    requires
        keep <= pr.len() == components(pc@).len(),
        forall|j: int|
            0 <= j < pr.len() ==> (#[trigger] pr[j]).0 <= pr[j].1 <= pc.len() && pc@.subrange(
                pr[j].0 as int,
                pr[j].1 as int,
            ) == components(pc@)[j],
    ensures
        out@ == render(is_absolute(pc@), components(pc@).subrange(0, keep as int)),
{
    let ghost cs = components(pc@).subrange(0, keep as int);
    let mut out: Vec<char> = Vec::new();
    if pc.len() > 0 && pc[0] == '/' {
        out.push('/');
    }
    let ghost start = out@;
    let mut k: usize = 0;
    proof {
        assert(cs.subrange(0, 0) =~= Seq::<Seq<char>>::empty());
        assert(out@ =~= start + joined_parts(cs.subrange(0, 0)));
    }
    while k < keep
        invariant
            k <= keep <= pr.len(),
            cs == components(pc@).subrange(0, keep as int),
            pr.len() == components(pc@).len(),
            forall|j: int|
                0 <= j < pr.len() ==> (#[trigger] pr[j]).0 <= pr[j].1 <= pc.len()
                    && pc@.subrange(pr[j].0 as int, pr[j].1 as int) == components(pc@)[j],
            out@ == start + joined_parts(cs.subrange(0, k as int)),
        decreases keep - k,
    {
        let ghost pre = out@;
        if k > 0 {
            out.push('/');
        }
        push_range(&mut out, pc, pr[k].0, pr[k].1);
        proof {
            let q = cs.subrange(0, k + 1);
            assert(q.drop_last() =~= cs.subrange(0, k as int));
            assert(q.last() == components(pc@)[k as int]);
            if k == 0 {
                assert(q.len() == 1);
                assert(out@ =~= start + joined_parts(q));
            } else {
                assert(out@ =~= start + joined_parts(q));
            }
        }
        k = k + 1;
    }
    proof {
        assert(cs.subrange(0, keep as int) =~= cs);
        if is_absolute(pc@) {
            assert(start =~= seq!['/']);
        } else {
            assert(start =~= Seq::<char>::empty());
            assert(out@ =~= joined_parts(cs));
        }
    }
    out
}

/// The parent of `p` (`Path::parent`): the path of all but its last
/// component, or `None` when it has no components.
pub fn parent(p: &str) -> (r: Option<String>)
    ensures
        match parent_of(p@) {
            Some(q) => r matches Some(s) && s@ == q,
            None => r is None,
        },
{
    let pc = chars_of(p);
    let pr = component_ranges(&pc);
    if pr.len() == 0 {
        return None;
    }
    let out = render_first(&pc, &pr, pr.len() - 1);
    proof {
        assert(components(pc@).subrange(0, pr.len() - 1) =~= components(pc@).drop_last());
    }
    Some(string_of(out.as_slice()))
}

/// The canonical spelling of path `p`: its root flag and components, one
/// `/` between them. Two paths that name the same path spell the same.
pub open spec fn canon(p: Seq<char>) -> Seq<char> {
    render(is_absolute(p), components(p))
}

/// Paths that name the same path have the same canonical spelling.
pub proof fn lemma_same_path_canon(a: Seq<char>, b: Seq<char>)
    requires
        same_path(a, b),
    ensures
        canon(a) == canon(b),
{
}

/// The canonical spelling of `p`.
pub fn canonical(p: &str) -> (r: Vec<char>)
    ensures
        r@ == canon(p@),
{
    let pc = chars_of(p);
    let pr = component_ranges(&pc);
    let out = render_first(&pc, &pr, pr.len());
    proof {
        assert(components(pc@).subrange(0, pr.len() as int) =~= components(pc@));
    }
    out
}

/// `dir` with the plain file name `name` appended.
pub fn join(dir: &str, name: &str) -> (r: String)
    ensures
        r@ == joined(dir@, name@),
{
    let mut out = chars_of(dir);
    if out.len() > 0 && out[out.len() - 1] != '/' {
        out.push('/');
    }
    let mut nc = chars_of(name);
    out.append(&mut nc);
    string_of(out.as_slice())
}

/// Whether component `c` is `..`.
pub open spec fn is_up(c: Seq<char>) -> bool {
    c == seq!['.', '.']
}

/// Components with `..` resolved: a `..` takes back the name before it;
/// at the top of an absolute path it has nothing to take back and goes;
/// at the top of a relative path it stays.
pub open spec fn resolve(abs: bool, cs: Seq<Seq<char>>) -> Seq<Seq<char>>
    decreases cs.len(),
{
    if cs.len() == 0 {
        cs
    } else {
        let r = resolve(abs, cs.drop_last());
        if is_up(cs.last()) {
            if r.len() > 0 && !is_up(r.last()) {
                r.drop_last()
            } else if abs {
                r
            } else {
                r.push(cs.last())
            }
        } else {
            r.push(cs.last())
        }
    }
}

/// The components of `p` with `.` and `..` resolved.
pub open spec fn resolved(p: Seq<char>) -> Seq<Seq<char>> {
    resolve(is_absolute(p), components(p))
}

/// Whether `p`, with `.` and `..` resolved, is `base` or lies below it.
pub open spec fn resolves_under(p: Seq<char>, base: Seq<char>) -> bool {
    &&& is_absolute(p) == is_absolute(base)
    &&& resolved(base).len() <= resolved(p).len()
    &&& resolved(p).subrange(0, resolved(base).len() as int) == resolved(base)
}

/// Every path resolves under itself.
pub proof fn lemma_resolves_under_itself(p: Seq<char>)
    ensures
        resolves_under(p, p),
{
    assert(resolved(p).subrange(0, resolved(p).len() as int) =~= resolved(p));
}

/// The components of `s` with `.` and `..` resolved, each copied out.
fn resolved_parts(s: &Vec<char>) -> (r: Vec<Vec<char>>)
    ensures
        r@.map_values(|v: Vec<char>| v@) == resolved(s@),
{
    let abs = s.len() > 0 && s[0] == '/';
    let pr = component_ranges(s);
    let ghost cs = components(s@);
    let mut out: Vec<Vec<char>> = Vec::new();
    let mut k: usize = 0;
    proof {
        assert(cs.subrange(0, 0) =~= Seq::<Seq<char>>::empty());
        assert(out@.map_values(|v: Vec<char>| v@) =~= Seq::<Seq<char>>::empty());
    }
    while k < pr.len()
        invariant
            k <= pr.len() == cs.len(),
            cs == components(s@),
            abs == is_absolute(s@),
            forall|j: int|
                0 <= j < pr.len() ==> (#[trigger] pr[j]).0 <= pr[j].1 <= s.len() && s@.subrange(
                    pr[j].0 as int,
                    pr[j].1 as int,
                ) == cs[j],
            out@.map_values(|v: Vec<char>| v@) == resolve(abs, cs.subrange(0, k as int)),
        decreases pr.len() - k,
    {
        let (a, b) = pr[k];
        let piece = crate::text::copy_range(s, a, b);
        let ghost before = out@.map_values(|v: Vec<char>| v@);
        proof {
            let q = cs.subrange(0, k + 1);
            assert(q.drop_last() =~= cs.subrange(0, k as int));
            assert(q.last() == cs[k as int]);
            assert(piece@ == cs[k as int]);
        }
        let up = piece.len() == 2 && piece[0] == '.' && piece[1] == '.';
        proof {
            if up {
                assert(piece@ =~= seq!['.', '.']);
            } else if is_up(piece@) {
                assert(piece@[0] == '.' && piece@[1] == '.');
            }
        }
        if up {
            let n = out.len();
            let last_up = n > 0 && out[n - 1].len() == 2 && out[n - 1][0] == '.' && out[n - 1][1]
                == '.';
            proof {
                if n > 0 {
                    assert(before[n - 1] == out@[n - 1]@);
                    if last_up {
                        assert(before.last() =~= seq!['.', '.']);
                    } else if is_up(before.last()) {
                        assert(out@[n - 1]@[0] == '.' && out@[n - 1]@[1] == '.');
                    }
                }
            }
            if n > 0 && !last_up {
                out.pop();
                proof {
                    assert(out@.map_values(|v: Vec<char>| v@) =~= before.drop_last());
                }
            } else if !abs {
                out.push(piece);
                proof {
                    assert(out@.map_values(|v: Vec<char>| v@) =~= before.push(cs[k as int]));
                }
            }
        } else {
            out.push(piece);
            proof {
                assert(out@.map_values(|v: Vec<char>| v@) =~= before.push(cs[k as int]));
            }
        }
        k = k + 1;
    }
    proof {
        assert(cs.subrange(0, pr.len() as int) =~= cs);
    }
    out
}

/// Whether `p`, with `.` and `..` resolved, is `base` or lies below it.
pub fn resolves_within(p: &str, base: &str) -> (r: bool)
    ensures
        r == resolves_under(p@, base@),
{
    let pc = chars_of(p);
    let bc = chars_of(base);
    let pa = pc.len() > 0 && pc[0] == '/';
    let ba = bc.len() > 0 && bc[0] == '/';
    if pa != ba {
        return false;
    }
    let pp = resolved_parts(&pc);
    let bp = resolved_parts(&bc);
    let ghost rp = resolved(p@);
    let ghost rb = resolved(base@);
    if bp.len() > pp.len() {
        proof {
            assert(rb.len() == bp@.len());
        }
        return false;
    }
    let mut i: usize = 0;
    while i < bp.len()
        invariant
            i <= bp.len() <= pp.len(),
            rp == resolved(p@),
            rb == resolved(base@),
            pp@.map_values(|v: Vec<char>| v@) == rp,
            bp@.map_values(|v: Vec<char>| v@) == rb,
            rp.subrange(0, i as int) == rb.subrange(0, i as int),
        decreases bp.len() - i,
    {
        let x = &pp[i];
        let y = &bp[i];
        let same = range_eq(x, 0, x.len(), y);
        proof {
            assert(x@.subrange(0, x@.len() as int) =~= x@);
            assert(rp[i as int] == x@);
            assert(rb[i as int] == y@);
        }
        if !same {
            proof {
                if rp.subrange(0, rb.len() as int) == rb {
                    assert(rp.subrange(0, rb.len() as int)[i as int] == rp[i as int]);
                }
            }
            return false;
        }
        proof {
            assert(rp.subrange(0, i + 1) =~= rp.subrange(0, i as int).push(rp[i as int]));
            assert(rb.subrange(0, i + 1) =~= rb.subrange(0, i as int).push(rb[i as int]));
        }
        i = i + 1;
    }
    proof {
        assert(rb.subrange(0, rb.len() as int) =~= rb);
    }
    true
}

/// The final component of `p` when it is a name (`Path::file_name`):
/// `None` for a path without components or ending in `..`.
pub open spec fn file_name_of(p: Seq<char>) -> Option<Seq<char>> {
    if components(p).len() > 0 && components(p).last() != seq!['.', '.'] {
        Some(components(p).last())
    } else {
        None
    }
}

/// The file name of `p` (`Path::file_name`).
pub fn file_name(p: &str) -> (r: Option<String>)
    ensures
        match file_name_of(p@) {
            Some(n) => r matches Some(s) && s@ == n,
            None => r is None,
        },
{
    let pc = chars_of(p);
    let pr = component_ranges(&pc);
    if pr.len() == 0 {
        return None;
    }
    let (a, b) = pr[pr.len() - 1];
    let ghost last = components(pc@).last();
    proof {
        assert(last == pc@.subrange(a as int, b as int));
    }
    if b - a == 2 && pc[a] == '.' && pc[a + 1] == '.' {
        proof {
            assert(last =~= seq!['.', '.']);
        }
        return None;
    }
    proof {
        if last == seq!['.', '.'] {
            assert(last[0] == pc@[a as int] && last[1] == pc@[a + 1]);
        }
    }
    let mut out: Vec<char> = Vec::new();
    push_range(&mut out, &pc, a, b);
    proof {
        assert(out@ =~= last);
    }
    Some(string_of(out.as_slice()))
}

/// `rest` joined onto `base` the way `Path::join` does it: an absolute
/// `rest` replaces the base.
pub fn push_path(base: &str, rest: &str) -> (r: String)
    ensures
        r@ == pushed(base@, rest@),
{
    let rc = chars_of(rest);
    if rc.len() > 0 && rc[0] == '/' {
        rest.to_owned()
    } else {
        join(base, rest)
    }
}

/// `p` with its file name replaced by `name` (`Path::with_file_name`): the
/// last component goes when it is a name (not `..`), then `name` is
/// appended.
pub open spec fn with_file_name(p: Seq<char>, name: Seq<char>) -> Seq<char> {
    if components(p).len() > 0 && components(p).last() != seq!['.', '.'] {
        joined(parent_of(p)->0, name)
    } else {
        joined(p, name)
    }
}

/// `p` with its file name replaced by `name` (`Path::with_file_name`).
pub fn replace_file_name(p: &str, name: &str) -> (r: String)
    ensures
        r@ == with_file_name(p@, name@),
{
    let pc = chars_of(p);
    let pr = component_ranges(&pc);
    if pr.len() > 0 {
        let (a, b) = pr[pr.len() - 1];
        let is_up = b - a == 2 && pc[a] == '.' && pc[a + 1] == '.';
        proof {
            let last = components(pc@).last();
            assert(last == pc@.subrange(a as int, b as int));
            if is_up {
                assert(last =~= seq!['.', '.']);
            } else if last == seq!['.', '.'] {
                assert(last[0] == pc@[a as int] && last[1] == pc@[a + 1]);
            }
        }
        if !is_up {
            match parent(p) {
                Some(q) => {
                    return join(q.as_str(), name);
                },
                None => {},
            }
        }
    }
    join(p, name)
}

} // verus!
