//! Paths resolved by name alone, as a shell resolves `cd ../x`: a path under a directory that
//! does not exist yet still resolves. Paths are `/`-separated; a leading `/` is the root.

use vstd::prelude::*;

use crate::text::{chars_of, copy_chars, join, joined, same, split, split_chars, string_of};

verus! {

/// The root piece, `/`.
pub open spec fn root() -> Seq<char> {
    seq!['/']
}

/// The parent piece, `..`.
pub open spec fn up() -> Seq<char> {
    seq!['.', '.']
}

/// The components of `path`: its root as `/` where it has one, then each non-empty piece but
/// `.`.
pub open spec fn components(path: Seq<char>) -> Seq<Seq<char>> {
    let rest = split(path, '/').filter(|p: Seq<char>| p.len() > 0 && p != seq!['.']);
    if path.len() > 0 && path[0] == '/' {
        seq![root()] + rest
    } else {
        rest
    }
}

/// The components of `path` joined onto `base`: those of `path` alone where it is absolute.
pub open spec fn joined_components(base: Seq<char>, path: Seq<char>) -> Seq<Seq<char>> {
    if path.len() > 0 && path[0] == '/' {
        components(path)
    } else {
        components(base) + components(path)
    }
}

/// Whether the component `p` names a directory: neither the root nor `..`.
pub open spec fn is_name(p: Seq<char>) -> bool {
    p != root() && p != up()
}

/// `cs` with each `..` taking back the name before it; a `..` with no name before it stays.
pub open spec fn resolved(cs: Seq<Seq<char>>) -> Seq<Seq<char>>
    decreases cs.len(),
{
    if cs.len() == 0 {
        Seq::empty()
    } else {
        let before = resolved(cs.drop_last());
        if cs.last() == up() && before.len() > 0 && is_name(before.last()) {
            before.drop_last()
        } else {
            before.push(cs.last())
        }
    }
}

/// Components written out as a path.
pub open spec fn path_of(cs: Seq<Seq<char>>) -> Seq<char> {
    if cs.len() > 0 && cs[0] == root() {
        root() + join(cs.drop_first(), '/')
    } else {
        join(cs, '/')
    }
}

/// `path` with `.` dropped and each `..` taking back the directory before it.
pub open spec fn lexical_of(path: Seq<char>) -> Seq<char> {
    path_of(resolved(components(path)))
}

/// How many components `a` and `b` share from the front.
pub open spec fn shared(a: Seq<Seq<char>>, b: Seq<Seq<char>>) -> nat
    decreases a.len(),
{
    if a.len() == 0 || b.len() == 0 || a[0] != b[0] {
        0
    } else {
        1 + shared(a.drop_first(), b.drop_first())
    }
}

/// The path that reaches the components `to` from the components `from`, both resolved first:
/// a `..` for each component of `from` past what they share, then the rest of `to`; `to`
/// itself where the two share nothing and it is absolute; `.` for `from` itself.
pub open spec fn relative_of(to: Seq<Seq<char>>, from: Seq<Seq<char>>) -> Seq<char> {
    let a = resolved(to);
    let b = resolved(from);
    let k = shared(a, b);
    let down = a.skip(k as int);
    let out = if down.len() > 0 && down[0] == root() {
        path_of(down)
    } else {
        join(Seq::new((b.len() - k) as nat, |i: int| up()) + down, '/')
    };
    if out.len() == 0 {
        seq!['.']
    } else {
        out
    }
}

/// A vector of characters shows the same text by its view and by its deep view.
proof fn lemma_deep(v: Vec<char>)
    ensures
        v.deep_view() == v@,
{
    assert(v.deep_view() =~= v@);
}

/// A copy of `s`, its deep view shown.
fn owned(s: &[char]) -> (out: Vec<char>)
    ensures
        out@ == s@,
        out.deep_view() == s@,
{
    let out = copy_chars(s);
    proof {
        lemma_deep(out);
    }
    out
}

proof fn lemma_shared(a: Seq<Seq<char>>, b: Seq<Seq<char>>, k: int)
    requires
        0 <= k <= a.len(),
        k <= b.len(),
        a.take(k) == b.take(k),
        k == a.len() || k == b.len() || a[k] != b[k],
    ensures
        shared(a, b) == k,
    decreases k,
{
    if k > 0 {
        assert(a[0] == a.take(k)[0]);
        assert(b[0] == b.take(k)[0]);
        assert(a.drop_first().take(k - 1) =~= a.take(k).drop_first());
        assert(b.drop_first().take(k - 1) =~= b.take(k).drop_first());
        lemma_shared(a.drop_first(), b.drop_first(), k - 1);
    }
}

/// The components of `path`.
pub fn components_of(path: &[char]) -> (out: Vec<Vec<char>>)
    ensures
        out.deep_view() == components(path@),
{
    let pieces = split_chars(path, '/');
    let ghost all = split(path@, '/');
    let mut out: Vec<Vec<char>> = Vec::new();
    let rooted = path.len() > 0 && path[0] == '/';
    if rooted {
        let mut r: Vec<char> = Vec::new();
        r.push('/');
        proof {
            lemma_deep(r);
            assert(r@ =~= root());
        }
        out.push(r);
        assert(out.deep_view() =~= seq![root()]);
    }
    let ghost head = out.deep_view();
    let mut i: usize = 0;
    while i < pieces.len()
        invariant
            i <= pieces@.len(),
            pieces@.len() == all.len(),
            all == split(path@, '/'),
            forall|k: int| 0 <= k < pieces@.len() ==> #[trigger] pieces@[k]@ == all[k],
            head == (if rooted { seq![root()] } else { Seq::<Seq<char>>::empty() }),
            out.deep_view() == head + all.take(i as int).filter(|p: Seq<char>| p.len() > 0 && p != seq!['.']),
        decreases pieces@.len() - i,
    {
        let p = &pieces[i];
        let keep = p.len() > 0 && !(p.len() == 1 && p[0] == '.');
        proof {
            assert(all.take(i + 1).drop_last() == all.take(i as int));
            reveal(Seq::filter);
            if p@.len() == 1 && p@[0] == '.' {
                assert(p@ =~= seq!['.']);
            }
        }
        if keep {
            let ghost was = out.deep_view();
            let c = owned(p.as_slice());
            out.push(c);
            assert(out.deep_view() =~= was.push(p@));
            assert(head + all.take(i + 1).filter(|p: Seq<char>| p.len() > 0 && p != seq!['.'])
                =~= was.push(p@));
        } else {
            assert(all.take(i + 1).filter(|p: Seq<char>| p.len() > 0 && p != seq!['.'])
                == all.take(i as int).filter(|p: Seq<char>| p.len() > 0 && p != seq!['.']));
        }
        i += 1;
    }
    assert(all.take(all.len() as int) == all);
    out
}

fn is_up(p: &Vec<char>) -> (r: bool)
    ensures
        r == (p@ == up()),
{
    let r = p.len() == 2 && p[0] == '.' && p[1] == '.';
    if r {
        assert(p@ =~= up());
    }
    r
}

fn is_root(p: &Vec<char>) -> (r: bool)
    ensures
        r == (p@ == root()),
{
    let r = p.len() == 1 && p[0] == '/';
    if r {
        assert(p@ =~= root());
    }
    r
}

/// `cs` resolved: each `..` takes back the name before it.
pub fn resolve(cs: &Vec<Vec<char>>) -> (out: Vec<Vec<char>>)
    ensures
        out.deep_view() == resolved(cs.deep_view()),
{
    let mut out: Vec<Vec<char>> = Vec::new();
    let mut i: usize = 0;
    while i < cs.len()
        invariant
            i <= cs@.len(),
            out.deep_view() == resolved(cs.deep_view().take(i as int)),
        decreases cs@.len() - i,
    {
        let ghost all = cs.deep_view();
        assert(all.take(i + 1).drop_last() == all.take(i as int));
        assert(all.take(i + 1).last() == cs@[i as int]@) by {
            lemma_deep(cs@[i as int]);
        }
        let n = out.len();
        proof {
            if n > 0 {
                lemma_deep(out@[n - 1]);
            }
        }
        if is_up(&cs[i]) && n > 0 && !is_root(&out[n - 1]) && !is_up(&out[n - 1]) {
            let ghost was = out.deep_view();
            out.pop();
            assert(out.deep_view() =~= was.drop_last());
        } else {
            let ghost was = out.deep_view();
            out.push(owned(cs[i].as_slice()));
            assert(out.deep_view() =~= was.push(cs@[i as int]@));
        }
        i += 1;
    }
    assert(cs.deep_view().take(cs@.len() as int) == cs.deep_view());
    out
}

/// Components written out as a path.
pub fn path_text(cs: &Vec<Vec<char>>) -> (out: Vec<char>)
    ensures
        out@ == path_of(cs.deep_view()),
{
    proof {
        if cs@.len() > 0 {
            lemma_deep(cs@[0]);
        }
    }
    if cs.len() > 0 && is_root(&cs[0]) {
        let mut rest: Vec<Vec<char>> = Vec::new();
        let mut i: usize = 1;
        while i < cs.len()
            invariant
                1 <= i <= cs@.len(),
                rest.deep_view() == cs.deep_view().subrange(1, i as int),
            decreases cs@.len() - i,
        {
            let ghost was = rest.deep_view();
            proof {
                lemma_deep(cs@[i as int]);
            }
            rest.push(owned(cs[i].as_slice()));
            assert(rest.deep_view() =~= was.push(cs@[i as int]@));
            assert(rest.deep_view() =~= cs.deep_view().subrange(1, i + 1));
            i += 1;
        }
        assert(rest.deep_view() =~= cs.deep_view().drop_first());
        let mut out: Vec<char> = vec!['/'];
        let joined = joined(&rest, '/');
        crate::text::extend(&mut out, joined.as_slice());
        assert(out@ =~= root() + joined@);
        out
    } else {
        joined(cs, '/')
    }
}

/// `path` with `.` dropped and each `..` taking back the directory before it, by name alone.
pub fn lexical(path: &str) -> (out: String)
    ensures
        out@ == lexical_of(path@),
{
    let chars = chars_of(path);
    let cs = components_of(chars.as_slice());
    let r = resolve(&cs);
    string_of(path_text(&r).as_slice())
}

/// The components of `path` joined onto `base`.
pub fn join_components(base: &str, path: &str) -> (out: Vec<Vec<char>>)
    ensures
        out.deep_view() == joined_components(base@, path@),
{
    let p = chars_of(path);
    let mut tail = components_of(p.as_slice());
    if p.len() > 0 && p[0] == '/' {
        tail
    } else {
        let b = chars_of(base);
        let mut out = components_of(b.as_slice());
        let ghost (x, y) = (out.deep_view(), tail.deep_view());
        out.append(&mut tail);
        assert(out.deep_view() =~= x + y);
        out
    }
}

/// The path that reaches the components `to` from the components `from`.
pub fn relative_path(to: &Vec<Vec<char>>, from: &Vec<Vec<char>>) -> (out: String)
    ensures
        out@ == relative_of(to.deep_view(), from.deep_view()),
{
    let a = resolve(to);
    let b = resolve(from);
    let ghost (av, bv) = (a.deep_view(), b.deep_view());
    let mut k: usize = 0;
    while k < a.len() && k < b.len() && same(a[k].as_slice(), b[k].as_slice())
        invariant
            k <= a@.len(),
            k <= b@.len(),
            av == a.deep_view(),
            bv == b.deep_view(),
            av.take(k as int) == bv.take(k as int),
        decreases a@.len() - k,
    {
        assert(av.take(k + 1) =~= av.take(k as int).push(av[k as int]));
        assert(bv.take(k + 1) =~= bv.take(k as int).push(bv[k as int]));
        k += 1;
    }
    proof {
        if k < a@.len() && k < b@.len() {
            lemma_deep(a@[k as int]);
            lemma_deep(b@[k as int]);
        }
        lemma_shared(av, bv, k as int);
    }
    let mut pieces: Vec<Vec<char>> = Vec::new();
    let mut i: usize = k;
    while i < b.len()
        invariant
            k <= i <= b@.len(),
            pieces.deep_view() =~= Seq::new((i - k) as nat, |j: int| up()),
        decreases b@.len() - i,
    {
        let mut u: Vec<char> = Vec::new();
        u.push('.');
        u.push('.');
        proof {
            lemma_deep(u);
            assert(u@ =~= up());
        }
        let ghost was = pieces.deep_view();
        pieces.push(u);
        assert(pieces.deep_view() =~= was.push(up()));
        proof {
            let v = pieces.deep_view();
            assert(v.last() =~= up());
        }
        i += 1;
    }
    let ghost ups = pieces.deep_view();
    let mut down: Vec<Vec<char>> = Vec::new();
    let mut j: usize = k;
    while j < a.len()
        invariant
            k <= j <= a@.len(),
            av == a.deep_view(),
            down.deep_view() =~= av.subrange(k as int, j as int),
        decreases a@.len() - j,
    {
        proof {
            lemma_deep(a@[j as int]);
        }
        let ghost was = down.deep_view();
        down.push(owned(a[j].as_slice()));
        assert(down.deep_view() =~= was.push(av[j as int]));
        j += 1;
    }
    assert(down.deep_view() =~= av.skip(k as int));
    proof {
        if down@.len() > 0 {
            lemma_deep(down@[0]);
        }
    }
    let out = if down.len() > 0 && is_root(&down[0]) {
        path_text(&down)
    } else {
        let ghost dv = down.deep_view();
        pieces.append(&mut down);
        assert(pieces.deep_view() =~= ups + dv);
        joined(&pieces, '/')
    };
    if out.len() == 0 {
        string_of(vec!['.'].as_slice())
    } else {
        string_of(out.as_slice())
    }
}

/// `path` relative to `base`, both resolved by name: `../p` for `/a/p` from `/a/repo`.
pub fn relative(path: &str, base: &str) -> (out: String)
    ensures
        out@ == relative_of(components(path@), components(base@)),
{
    let p = chars_of(path);
    let b = chars_of(base);
    relative_path(&components_of(p.as_slice()), &components_of(b.as_slice()))
}

} // verus!
