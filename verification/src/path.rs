//! Paths as the rest of the library compares them: by their components
//! (Unix rules, as `std::path::Path::components` splits them), ordered
//! component by component.

use vstd::prelude::*;
use crate::text::{split, split_chars, views};

verus! {

/// Rank of a root component (`/`), in the order of std's `Component`.
pub const ROOT_DIR: u8 = 1;

/// Rank of a leading current-directory component (`.`).
pub const CUR_DIR: u8 = 2;

/// Rank of a parent-directory component (`..`).
pub const PARENT_DIR: u8 = 3;

/// Rank of a normal (named) component.
pub const NORMAL: u8 = 4;

/// The component that one `/`-separated part of a path stands for: none
/// for an empty part or `.`, a parent-directory component for `..`, a
/// named component otherwise.
pub open spec fn part_component(part: Seq<char>) -> Option<(u8, Seq<char>)> {
    if part.len() == 0 || part == seq!['.'] {
        None
    } else if part == seq!['.', '.'] {
        Some((PARENT_DIR, Seq::empty()))
    } else {
        Some((NORMAL, part))
    }
}

/// The components of the parts, in order.
pub open spec fn parts_components(parts: Seq<Seq<char>>) -> Seq<(u8, Seq<char>)>
    decreases parts.len(),
{
    if parts.len() == 0 {
        Seq::empty()
    } else {
        let prev = parts_components(parts.drop_last());
        match part_component(parts.last()) {
            Some(c) => prev.push(c),
            None => prev,
        }
    }
}

/// The components of a path: a root component when it starts with `/`, or
/// a current-directory component when it starts with `.` followed by `/`
/// or nothing; then the components of its `/`-separated parts, where empty
/// parts and `.` drop out.
pub open spec fn path_components(p: Seq<char>) -> Seq<(u8, Seq<char>)> {
    let rest = parts_components(split(p, '/'));
    if p.len() > 0 && p[0] == '/' {
        seq![(ROOT_DIR, Seq::<char>::empty())] + rest
    } else if p.len() > 0 && p[0] == '.' && (p.len() == 1 || p[1] == '/') {
        seq![(CUR_DIR, Seq::<char>::empty())] + rest
    } else {
        rest
    }
}

/// The lexicographic order on sequences built from the order `lt` on
/// their elements: a proper prefix comes first.
pub open spec fn lex_lt<T>(a: Seq<T>, b: Seq<T>, lt: spec_fn(T, T) -> bool) -> bool
    decreases a.len(),
{
    if a.len() == 0 {
        b.len() > 0
    } else if b.len() == 0 {
        false
    } else if a[0] != b[0] {
        lt(a[0], b[0])
    } else {
        lex_lt(a.drop_first(), b.drop_first(), lt)
    }
}

/// `lt` is a strict total order.
pub open spec fn strict_total<T>(lt: spec_fn(T, T) -> bool) -> bool {
    &&& forall|x: T| !#[trigger] lt(x, x)
    &&& forall|x: T, y: T| x != y ==> #[trigger] lt(x, y) || #[trigger] lt(y, x)
    &&& forall|x: T, y: T, z: T| #[trigger] lt(x, y) && #[trigger] lt(y, z) ==> lt(x, z)
}

/// Characters ordered by code point (the order of their UTF-8 bytes).
pub open spec fn char_lt(x: char, y: char) -> bool {
    (x as u32) < (y as u32)
}

/// Components ordered by rank, then by name.
pub open spec fn component_lt(x: (u8, Seq<char>), y: (u8, Seq<char>)) -> bool {
    x.0 < y.0 || (x.0 == y.0 && lex_lt(x.1, y.1, |a: char, b: char| char_lt(a, b)))
}

/// Component lists ordered component by component, as std orders paths.
pub open spec fn key_lt(a: Seq<(u8, Seq<char>)>, b: Seq<(u8, Seq<char>)>) -> bool {
    lex_lt(a, b, |x: (u8, Seq<char>), y: (u8, Seq<char>)| component_lt(x, y))
}

/// Path `a` orders strictly before path `b`.
pub open spec fn path_lt(a: Seq<char>, b: Seq<char>) -> bool {
    key_lt(path_components(a), path_components(b))
}

/// Paths `a` and `b` are the same path (the same components).
pub open spec fn same_path(a: Seq<char>, b: Seq<char>) -> bool {
    path_components(a) == path_components(b)
}

proof fn lemma_lex_irreflexive<T>(a: Seq<T>, lt: spec_fn(T, T) -> bool)
    requires
        strict_total(lt),
    ensures
        !lex_lt(a, a, lt),
    decreases a.len(),
{
    if a.len() > 0 {
        lemma_lex_irreflexive(a.drop_first(), lt);
    }
}

proof fn lemma_lex_total<T>(a: Seq<T>, b: Seq<T>, lt: spec_fn(T, T) -> bool)
    requires
        strict_total(lt),
        a != b,
    ensures
        lex_lt(a, b, lt) || lex_lt(b, a, lt),
    decreases a.len(),
{
    if a.len() > 0 && b.len() > 0 && a[0] == b[0] {
        if a.drop_first() == b.drop_first() {
            assert(a =~= seq![a[0]] + a.drop_first());
            assert(b =~= seq![b[0]] + b.drop_first());
        }
        lemma_lex_total(a.drop_first(), b.drop_first(), lt);
    } else if a.len() > 0 && b.len() > 0 {
        assert(lt(a[0], b[0]) || lt(b[0], a[0]));
    } else if a.len() == 0 && b.len() == 0 {
        assert(a =~= b);
    }
}

proof fn lemma_lex_transitive<T>(a: Seq<T>, b: Seq<T>, c: Seq<T>, lt: spec_fn(T, T) -> bool)
    requires
        strict_total(lt),
        lex_lt(a, b, lt),
        lex_lt(b, c, lt),
    ensures
        lex_lt(a, c, lt),
    decreases a.len(),
{
    if a.len() > 0 && b.len() > 0 && c.len() > 0 {
        if a[0] == b[0] && b[0] == c[0] {
            lemma_lex_transitive(a.drop_first(), b.drop_first(), c.drop_first(), lt);
        } else if a[0] != b[0] && b[0] != c[0] {
            assert(lt(a[0], b[0]) && lt(b[0], c[0]));
            assert(lt(a[0], c[0]));
            if a[0] == c[0] {
                assert(!lt(a[0], a[0]));
            }
        }
    }
}

/// The lexicographic order built from a strict total order is one too.
pub proof fn lemma_lex_strict_total<T>(lt: spec_fn(T, T) -> bool)
    requires
        strict_total(lt),
    ensures
        strict_total(|a: Seq<T>, b: Seq<T>| lex_lt(a, b, lt)),
{
    let l = |a: Seq<T>, b: Seq<T>| lex_lt(a, b, lt);
    assert forall|a: Seq<T>| !#[trigger] l(a, a) by {
        lemma_lex_irreflexive(a, lt);
    }
    assert forall|a: Seq<T>, b: Seq<T>| a != b implies #[trigger] l(a, b) || #[trigger] l(b, a) by {
        lemma_lex_total(a, b, lt);
    }
    assert forall|a: Seq<T>, b: Seq<T>, c: Seq<T>| #[trigger] l(a, b) && #[trigger] l(b, c) implies l(
        a,
        c,
    ) by {
        lemma_lex_transitive(a, b, c, lt);
    }
}

/// The order on component lists (and so on paths) is a strict total order.
pub proof fn lemma_key_order()
    ensures
        strict_total(|a: Seq<(u8, Seq<char>)>, b: Seq<(u8, Seq<char>)>| key_lt(a, b)),
{
    let cl = |a: char, b: char| char_lt(a, b);
    assert forall|x: char, y: char| x != y implies #[trigger] cl(x, y) || #[trigger] cl(y, x) by {
        vstd::utf8::char_u32_cast(x, x as u32);
        vstd::utf8::char_u32_cast(y, y as u32);
    }
    assert(strict_total(cl));
    lemma_lex_strict_total(cl);
    let sl = |a: Seq<char>, b: Seq<char>| lex_lt(a, b, cl);
    assert(strict_total(sl));
    let pl = |x: (u8, Seq<char>), y: (u8, Seq<char>)| component_lt(x, y);
    assert forall|x: (u8, Seq<char>)| !#[trigger] pl(x, x) by {
        assert(!sl(x.1, x.1));
    }
    assert forall|x: (u8, Seq<char>), y: (u8, Seq<char>)| x != y implies #[trigger] pl(x, y)
        || #[trigger] pl(y, x) by {
        if x.0 == y.0 {
            assert(x.1 != y.1);
            assert(sl(x.1, y.1) || sl(y.1, x.1));
        }
    }
    assert forall|x: (u8, Seq<char>), y: (u8, Seq<char>), z: (u8, Seq<char>)| #[trigger] pl(x, y)
        && #[trigger] pl(y, z) implies pl(x, z) by {
        if x.0 == y.0 && y.0 == z.0 {
            assert(sl(x.1, y.1) && sl(y.1, z.1));
        }
    }
    assert(strict_total(pl));
    lemma_lex_strict_total(pl);
    let kl = |a: Seq<(u8, Seq<char>)>, b: Seq<(u8, Seq<char>)>| lex_lt(a, b, pl);
    assert(strict_total(kl));
    assert forall|a: Seq<(u8, Seq<char>)>, b: Seq<(u8, Seq<char>)>| #[trigger] key_lt(a, b) == kl(
        a,
        b,
    ) by {
        assert(pl =~= (|x: (u8, Seq<char>), y: (u8, Seq<char>)| component_lt(x, y)));
    }
    assert((|a: Seq<(u8, Seq<char>)>, b: Seq<(u8, Seq<char>)>| key_lt(a, b)) =~= kl);
}


/// Two sequences that agree on their first `i` elements compare as their
/// remainders do.
pub proof fn lemma_lex_skip<T>(a: Seq<T>, b: Seq<T>, i: int, lt: spec_fn(T, T) -> bool)
    requires
        0 <= i <= a.len(),
        i <= b.len(),
        a.take(i) == b.take(i),
    ensures
        lex_lt(a, b, lt) == lex_lt(a.skip(i), b.skip(i), lt),
    decreases i,
{
    if i > 0 {
        assert(a[0] == a.take(i)[0]);
        assert(b[0] == b.take(i)[0]);
        assert(a.drop_first().take(i - 1) =~= a.take(i).drop_first());
        assert(b.drop_first().take(i - 1) =~= b.take(i).drop_first());
        lemma_lex_skip(a.drop_first(), b.drop_first(), i - 1, lt);
        assert(a.drop_first().skip(i - 1) =~= a.skip(i));
        assert(b.drop_first().skip(i - 1) =~= b.skip(i));
    } else {
        assert(a.skip(0) =~= a);
        assert(b.skip(0) =~= b);
    }
}

/// The comparison result that `lt` gives for `a` against `b`: -1, 0 or 1.
pub open spec fn compares_as<T>(r: i8, a: Seq<T>, b: Seq<T>, lt: spec_fn(T, T) -> bool) -> bool {
    &&& (r == -1 <==> lex_lt(a, b, lt))
    &&& (r == 0 <==> a == b)
    &&& (r == 1 <==> lex_lt(b, a, lt))
}

/// Compares two names character by character.
fn compare_names(a: &Vec<char>, b: &Vec<char>) -> (r: i8)
    ensures
        r == -1 || r == 0 || r == 1,
        compares_as(r, a@, b@, |x: char, y: char| char_lt(x, y)),
{
    let ghost cl = |x: char, y: char| char_lt(x, y);
    proof {
        lemma_key_order();
        assert forall|x: char, y: char| x != y implies #[trigger] cl(x, y) || #[trigger] cl(y, x) by {
            vstd::utf8::char_u32_cast(x, x as u32);
            vstd::utf8::char_u32_cast(y, y as u32);
        }
        lemma_lex_strict_total(cl);
        assert(cl =~= (|x: char, y: char| char_lt(x, y)));
    }
    let n = if a.len() < b.len() { a.len() } else { b.len() };
    let mut i: usize = 0;
    while i < n
        invariant
            n <= a@.len(),
            n <= b@.len(),
            i <= n,
            a@.take(i as int) == b@.take(i as int),
            cl == (|x: char, y: char| char_lt(x, y)),
            strict_total(|x: Seq<char>, y: Seq<char>| lex_lt(x, y, cl)),
        decreases n - i,
    {
        if a[i] != b[i] {
            proof {
                lemma_lex_skip(a@, b@, i as int, cl);
                lemma_lex_skip(b@, a@, i as int, cl);
                assert(a@.skip(i as int)[0] == a@[i as int]);
                assert(b@.skip(i as int)[0] == b@[i as int]);
                vstd::utf8::char_u32_cast(a@[i as int], a@[i as int] as u32);
                vstd::utf8::char_u32_cast(b@[i as int], b@[i as int] as u32);
                if a@ == b@ {
                    assert(a@[i as int] == b@[i as int]);
                }
                let l = |x: Seq<char>, y: Seq<char>| lex_lt(x, y, cl);
                if l(a@, b@) && l(b@, a@) {
                    assert(l(a@, a@));
                }
            }
            if (a[i] as u32) < (b[i] as u32) {
                return -1;
            } else {
                return 1;
            }
        }
        assert(a@.take(i + 1) =~= a@.take(i as int).push(a@[i as int]));
        assert(b@.take(i + 1) =~= b@.take(i as int).push(b@[i as int]));
        i = i + 1;
    }
    proof {
        lemma_lex_skip(a@, b@, i as int, cl);
        lemma_lex_skip(b@, a@, i as int, cl);
        assert(a@.skip(i as int).len() == a@.len() - i);
        if a@.len() == b@.len() {
            assert(a@ =~= a@.take(i as int));
            assert(b@ =~= b@.take(i as int));
        }
    }
    if a.len() == b.len() {
        0
    } else if a.len() < b.len() {
        -1
    } else {
        1
    }
}

/// Each component's rank and name.
pub open spec fn comps_view(v: Seq<(u8, Vec<char>)>) -> Seq<(u8, Seq<char>)> {
    v.map_values(|c: (u8, Vec<char>)| (c.0, c.1@))
}

/// Compares two component lists as std compares paths: -1, 0 or 1.
pub fn compare_components(a: &Vec<(u8, Vec<char>)>, b: &Vec<(u8, Vec<char>)>) -> (r: i8)
    ensures
        r == -1 || r == 0 || r == 1,
        (r == -1 <==> key_lt(comps_view(a@), comps_view(b@))),
        (r == 0 <==> comps_view(a@) == comps_view(b@)),
        (r == 1 <==> key_lt(comps_view(b@), comps_view(a@))),
{
    let ghost pl = |x: (u8, Seq<char>), y: (u8, Seq<char>)| component_lt(x, y);
    let ghost av = comps_view(a@);
    let ghost bv = comps_view(b@);
    proof {
        lemma_key_order();
        assert forall|x: Seq<(u8, Seq<char>)>, y: Seq<(u8, Seq<char>)>| #[trigger] key_lt(x, y)
            == lex_lt(x, y, pl) by {
            assert(pl =~= (|x: (u8, Seq<char>), y: (u8, Seq<char>)| component_lt(x, y)));
        }
    }
    let n = if a.len() < b.len() { a.len() } else { b.len() };
    let mut i: usize = 0;
    while i < n
        invariant
            n <= a@.len(),
            n <= b@.len(),
            i <= n,
            av == comps_view(a@),
            bv == comps_view(b@),
            av.take(i as int) == bv.take(i as int),
            pl == (|x: (u8, Seq<char>), y: (u8, Seq<char>)| component_lt(x, y)),
            strict_total(|x: Seq<(u8, Seq<char>)>, y: Seq<(u8, Seq<char>)>| key_lt(x, y)),
            forall|x: Seq<(u8, Seq<char>)>, y: Seq<(u8, Seq<char>)>| #[trigger] key_lt(x, y)
                == lex_lt(x, y, pl),
        decreases n - i,
    {
        let ra = a[i].0;
        let rb = b[i].0;
        let c = if ra < rb {
            -1i8
        } else if ra > rb {
            1i8
        } else {
            compare_names(&a[i].1, &b[i].1)
        };
        if c != 0 {
            proof {
                lemma_lex_skip(av, bv, i as int, pl);
                lemma_lex_skip(bv, av, i as int, pl);
                assert(av.skip(i as int)[0] == av[i as int]);
                assert(bv.skip(i as int)[0] == bv[i as int]);
                assert(av[i as int] == (ra, a@[i as int].1@));
                assert(bv[i as int] == (rb, b@[i as int].1@));
                assert((|p: char, q: char| char_lt(p, q)) =~= (|x: char, y: char| char_lt(x, y)));
                if c == -1 {
                    assert(component_lt(av[i as int], bv[i as int]));
                } else {
                    assert(component_lt(bv[i as int], av[i as int]));
                }
                assert(av[i as int] != bv[i as int]) by {
                    if av[i as int] == bv[i as int] {
                        assert(a@[i as int].1@ == b@[i as int].1@);
                    }
                }
                if av == bv {
                    assert(av[i as int] == bv[i as int]);
                }
                let kl = |x: Seq<(u8, Seq<char>)>, y: Seq<(u8, Seq<char>)>| key_lt(x, y);
                if kl(av, bv) && kl(bv, av) {
                    assert(kl(av, av));
                }
            }
            return c;
        }
        assert(av[i as int] == bv[i as int]);
        assert(av.take(i + 1) =~= av.take(i as int).push(av[i as int]));
        assert(bv.take(i + 1) =~= bv.take(i as int).push(bv[i as int]));
        i = i + 1;
    }
    proof {
        lemma_lex_skip(av, bv, i as int, pl);
        lemma_lex_skip(bv, av, i as int, pl);
        if a@.len() == b@.len() {
            assert(av =~= av.take(i as int));
            assert(bv =~= bv.take(i as int));
        }
    }
    if a.len() == b.len() {
        0
    } else if a.len() < b.len() {
        -1
    } else {
        1
    }
}

/// The component of one part, or none.
fn component_of_part(part: &Vec<char>) -> (r: Option<(u8, Vec<char>)>)
    ensures
        match r {
            Some(c) => part_component(part@) == Some((c.0, c.1@)),
            None => part_component(part@).is_none(),
        },
{
    let n = part.len();
    if n == 0 || (n == 1 && part[0] == '.') {
        proof {
            if n == 1 {
                assert(part@ =~= seq!['.']);
            }
        }
        None
    } else if n == 2 && part[0] == '.' && part[1] == '.' {
        assert(part@ =~= seq!['.', '.']);
        Some((PARENT_DIR, Vec::new()))
    } else {
        assert(part@ != seq!['.']) by {
            if part@ =~= seq!['.'] {
                assert(part@[0] == '.');
            }
        }
        assert(part@ != seq!['.', '.']) by {
            if part@ =~= seq!['.', '.'] {
                assert(part@[0] == '.' && part@[1] == '.');
            }
        }
        let mut copy: Vec<char> = Vec::new();
        let mut i: usize = 0;
        while i < n
            invariant
                n == part@.len(),
                i <= n,
                copy@ == part@.take(i as int),
            decreases n - i,
        {
            copy.push(part[i]);
            assert(part@.take(i + 1) =~= part@.take(i as int).push(part@[i as int]));
            i = i + 1;
        }
        assert(part@.take(n as int) =~= part@);
        Some((NORMAL, copy))
    }
}

/// The components of the path `chars` (see `path_components`).
pub fn components_of(chars: &[char]) -> (r: Vec<(u8, Vec<char>)>)
    ensures
        comps_view(r@) == path_components(chars@),
{
    let parts = split_chars(chars, '/');
    let mut out: Vec<(u8, Vec<char>)> = Vec::new();
    let n = chars.len();
    let ghost head: Seq<(u8, Seq<char>)> = if n > 0 && chars@[0] == '/' {
        seq![(ROOT_DIR, Seq::<char>::empty())]
    } else if n > 0 && chars@[0] == '.' && (n == 1 || chars@[1] == '/') {
        seq![(CUR_DIR, Seq::<char>::empty())]
    } else {
        Seq::empty()
    };
    if n > 0 && chars[0] == '/' {
        out.push((ROOT_DIR, Vec::new()));
    } else if n > 0 && chars[0] == '.' && (n == 1 || chars[1] == '/') {
        out.push((CUR_DIR, Vec::new()));
    }
    assert(comps_view(out@) =~= head);
    let ghost pv = views(parts@);
    let m = parts.len();
    let mut i: usize = 0;
    assert(pv.take(0) =~= Seq::<Seq<char>>::empty());
    while i < m
        invariant
            m == parts@.len(),
            pv == views(parts@),
            pv == split(chars@, '/'),
            i <= m,
            comps_view(out@) == head + parts_components(pv.take(i as int)),
        decreases m - i,
    {
        assert(pv.take(i + 1).drop_last() =~= pv.take(i as int));
        assert(pv.take(i + 1).last() == parts@[i as int]@);
        let ghost before = comps_view(out@);
        match component_of_part(&parts[i]) {
            Some(c) => {
                out.push(c);
                assert(comps_view(out@) =~= before.push((c.0, c.1@)));
            },
            None => {},
        }
        i = i + 1;
    }
    assert(pv.take(m as int) =~= pv);
    out
}

} // verus!
