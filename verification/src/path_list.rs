//! A list of paths with an associated display order. Two lists are equal
//! when they hold the same paths, whatever order those were given in; the
//! original order is kept for display.

use vstd::prelude::*;
use itertools::Itertools;
use vstd::std_specs::cmp::PartialEqSpec;
use crate::text::{
    chars_of, split, split_chars, views, join, join_nonempty, decimal, decimal_string, parse_usize,
    parse_usize_chars, string_from_chars, lemma_split_join, lemma_join_nonempty,
    lemma_parse_decimal_usize, lemma_decimal_digits, is_digit,
};
use crate::path::{
    path_components, path_lt, same_path, key_lt, comps_view, components_of, compare_components,
    lemma_key_order, strict_total,
};

verus! {

/// The characters of each string.
pub open spec fn string_views(v: Seq<String>) -> Seq<Seq<char>> {
    v.map_values(|s: String| s@)
}

/// The characters of each string slice.
pub open spec fn str_views(v: Seq<&str>) -> Seq<Seq<char>> {
    v.map_values(|s: &str| s@)
}

/// No earlier input is the same path as input `k`.
pub open spec fn is_first(inputs: Seq<Seq<char>>, k: int) -> bool {
    forall|j: int| 0 <= j < k ==> !same_path(#[trigger] inputs[j], inputs[k])
}

/// Each path orders strictly before the next ones.
pub open spec fn strictly_sorted(ps: Seq<Seq<char>>) -> bool {
    forall|i: int, j: int| 0 <= i < j < ps.len() ==> path_lt(#[trigger] ps[i], #[trigger] ps[j])
}

/// No index occurs twice.
pub open spec fn distinct(s: Seq<usize>) -> bool {
    forall|i: int, j: int| 0 <= i < s.len() && 0 <= j < s.len() && i != j ==> s[i] != s[j]
}

/// A list of absolute paths, with an associated display order.
///
/// Two `PathList` values are considered equal if they contain the same paths,
/// regardless of the order in which those paths were originally provided.
///
/// The paths can be retrieved in the original order using `ordered_paths()`.
#[derive(Debug, Clone)]
pub struct PathList {
    /// The paths, in lexicographic order.
    paths: Vec<String>,
    /// The order in which the paths were provided.
    order: Vec<usize>,
}

/// The place of a component list among sorted ones: `(true, e)` when entry
/// `e` has the same components, else `(false, pos)` with every entry before
/// `pos` ordering before the new one and the entry at `pos` (if any) after.
fn find_slot(keys: &Vec<Vec<(u8, Vec<char>)>>, key: &Vec<(u8, Vec<char>)>) -> (r: (bool, usize))
    ensures
        r.1 <= keys@.len(),
        forall|e: int| 0 <= e < r.1 ==> key_lt(comps_view(#[trigger] keys@[e]@), comps_view(key@)),
        r.0 ==> r.1 < keys@.len() && comps_view(keys@[r.1 as int]@) == comps_view(key@),
        !r.0 ==> r.1 == keys@.len() || key_lt(comps_view(key@), comps_view(keys@[r.1 as int]@)),
{
    let m = keys.len();
    let mut pos: usize = 0;
    while pos < m
        invariant
            m == keys@.len(),
            pos <= m,
            forall|e: int| 0 <= e < pos ==> key_lt(comps_view(#[trigger] keys@[e]@), comps_view(key@)),
        decreases m - pos,
    {
        let c = compare_components(key, &keys[pos]);
        if c == 0 {
            return (true, pos);
        }
        if c == -1 {
            return (false, pos);
        }
        pos = pos + 1;
    }
    (false, pos)
}

/// `path_lt` is a strict total order on paths (through their components).
pub proof fn lemma_path_order()
    ensures
        forall|a: Seq<char>| !#[trigger] path_lt(a, a),
        forall|a: Seq<char>, b: Seq<char>|
            !same_path(a, b) ==> #[trigger] path_lt(a, b) || #[trigger] path_lt(b, a),
        forall|a: Seq<char>, b: Seq<char>| #[trigger] path_lt(a, b) ==> !path_lt(b, a) && !same_path(a, b),
        forall|a: Seq<char>, b: Seq<char>, c: Seq<char>|
            #[trigger] path_lt(a, b) && #[trigger] path_lt(b, c) ==> path_lt(a, c),
{
    lemma_key_order();
    let kl = |x: Seq<(u8, Seq<char>)>, y: Seq<(u8, Seq<char>)>| key_lt(x, y);
    assert forall|a: Seq<char>| !#[trigger] path_lt(a, a) by {
        assert(!kl(path_components(a), path_components(a)));
    }
    assert forall|a: Seq<char>, b: Seq<char>| !same_path(a, b) implies #[trigger] path_lt(a, b)
        || #[trigger] path_lt(b, a) by {
        assert(kl(path_components(a), path_components(b)) || kl(path_components(b), path_components(a)));
    }
    assert forall|a: Seq<char>, b: Seq<char>| #[trigger] path_lt(a, b) implies !path_lt(b, a)
        && !same_path(a, b) by {
        let (x, y) = (path_components(a), path_components(b));
        assert(!kl(x, x));
        if kl(y, x) {
            assert(kl(x, y) && kl(y, x));
            assert(kl(x, x));
        }
    }
    assert forall|a: Seq<char>, b: Seq<char>, c: Seq<char>| #[trigger] path_lt(a, b)
        && #[trigger] path_lt(b, c) implies path_lt(a, c) by {
        assert(kl(path_components(a), path_components(b)) && kl(path_components(b), path_components(c)));
    }
}

/// Inserting a path between the paths that order before it and those that
/// order after it keeps a strictly sorted list strictly sorted.
proof fn lemma_insert_sorted(ps: Seq<Seq<char>>, pos: int, x: Seq<char>)
    requires
        strictly_sorted(ps),
        0 <= pos <= ps.len(),
        forall|e: int| 0 <= e < pos ==> path_lt(#[trigger] ps[e], x),
        forall|e: int| pos <= e < ps.len() ==> path_lt(x, #[trigger] ps[e]),
    ensures
        strictly_sorted(ps.insert(pos, x)),
{
    let qs = ps.insert(pos, x);
    assert forall|i: int, j: int| 0 <= i < j < qs.len() implies path_lt(#[trigger] qs[i], #[trigger] qs[j]) by {
        if i < pos && j < pos {
            assert(qs[i] == ps[i] && qs[j] == ps[j]);
        } else if i < pos && j == pos {
            assert(qs[i] == ps[i]);
        } else if i < pos {
            assert(qs[i] == ps[i] && qs[j] == ps[j - 1]);
        } else if i == pos {
            assert(qs[j] == ps[j - 1]);
        } else {
            assert(qs[i] == ps[i - 1] && qs[j] == ps[j - 1]);
        }
    }
}

impl PathList {
    /// The paths, in lexicographic order.
    pub closed spec fn path_seq(&self) -> Seq<Seq<char>> {
        string_views(self.paths@)
    }

    /// For each path, its index in the order in which the paths were provided.
    pub closed spec fn order_seq(&self) -> Seq<usize> {
        self.order@
    }

    /// The components of each path, in lexicographic order.
    pub open spec fn key_seq(&self) -> Seq<Seq<(u8, Seq<char>)>> {
        self.path_seq().map_values(|p: Seq<char>| path_components(p))
    }

    /// One order index per path, the paths strictly sorted, no order index
    /// twice.
    pub open spec fn wf(&self) -> bool {
        &&& self.path_seq().len() == self.order_seq().len()
        &&& strictly_sorted(self.path_seq())
        &&& distinct(self.order_seq())
    }

    /// The list is what `new` makes of `inputs`: the first input of each
    /// distinct path, in lexicographic order, each with its input index.
    pub open spec fn built_from(&self, inputs: Seq<Seq<char>>) -> bool {
        let ps = self.path_seq();
        let ord = self.order_seq();
        &&& self.wf()
        &&& forall|i: int|
            0 <= i < ord.len() ==> {
                &&& 0 <= #[trigger] ord[i] < inputs.len()
                &&& is_first(inputs, ord[i] as int)
                &&& ps[i] == inputs[ord[i] as int]
            }
        &&& forall|k: int|
            0 <= k < inputs.len() && is_first(inputs, k) ==> exists|i: int|
                0 <= i < ord.len() && #[trigger] ord[i] == k
    }

    /// Builds the list from `paths`: duplicates (the same path) collapse to
    /// their first occurrence, the paths are sorted, and each keeps the
    /// index at which it was given.
    pub fn new(paths: &[&str]) -> (r: PathList)
        ensures
            r.built_from(str_views(paths@)),
    {
        let ghost inputs = str_views(paths@);
        let mut strs: Vec<String> = Vec::new();
        let mut idxs: Vec<usize> = Vec::new();
        let mut keys: Vec<Vec<(u8, Vec<char>)>> = Vec::new();
        proof {
            lemma_key_order();
            lemma_path_order();
        }
        let n = paths.len();
        let mut ix: usize = 0;
        while ix < n
            invariant
                n == paths@.len(),
                inputs == str_views(paths@),
                ix <= n,
                strict_total(|a: Seq<(u8, Seq<char>)>, b: Seq<(u8, Seq<char>)>| key_lt(a, b)),
                forall|a: Seq<char>| !#[trigger] path_lt(a, a),
                forall|a: Seq<char>, b: Seq<char>|
                    #[trigger] path_lt(a, b) ==> !path_lt(b, a) && !same_path(a, b),
                forall|a: Seq<char>, b: Seq<char>, c: Seq<char>|
                    #[trigger] path_lt(a, b) && #[trigger] path_lt(b, c) ==> path_lt(a, c),
                strs@.len() == idxs@.len(),
                keys@.len() == idxs@.len(),
                forall|e: int|
                    0 <= e < keys@.len() ==> comps_view(#[trigger] keys@[e]@) == path_components(
                        strs@[e]@,
                    ),
                forall|e: int|
                    0 <= e < idxs@.len() ==> {
                        &&& #[trigger] idxs@[e] < ix
                        &&& is_first(inputs, idxs@[e] as int)
                        &&& strs@[e]@ == inputs[idxs@[e] as int]
                    },
                strictly_sorted(string_views(strs@)),
                forall|k: int|
                    0 <= k < ix && is_first(inputs, k) ==> exists|e: int|
                        0 <= e < idxs@.len() && #[trigger] idxs@[e] == k,
                forall|k: int|
                    #![trigger inputs[k]]
                    0 <= k < ix ==> exists|e: int|
                        #![trigger strs@[e]]
                        0 <= e < strs@.len() && same_path(strs@[e]@, inputs[k]),
            decreases n - ix,
        {
            let s: String = paths[ix].to_owned();
            assert(s@ == inputs[ix as int]);
            let chars = chars_of(s.as_str());
            let key = components_of(chars.as_slice());
            let (dup, pos) = find_slot(&keys, &key);
            let m = keys.len();
            let ghost ps = string_views(strs@);
            let ghost old_strs = strs@;
            let ghost old_idxs = idxs@;
            let ghost old_keys = keys@;
            assert(comps_view(key@) == path_components(s@));
            if dup {
                proof {
                    assert(same_path(strs@[pos as int]@, inputs[ix as int]));
                    let j = idxs@[pos as int] as int;
                    assert(same_path(inputs[j], inputs[ix as int]));
                    assert(!is_first(inputs, ix as int));
                    assert forall|k: int| #![trigger inputs[k]] 0 <= k < ix + 1 implies exists|e: int|
                        #![trigger strs@[e]]
                        0 <= e < strs@.len() && same_path(strs@[e]@, inputs[k]) by {
                        if k == ix {
                            assert(same_path(strs@[pos as int]@, inputs[k]));
                        }
                    }
                }
            } else {
                proof {
                    // everything at and after `pos` orders after the new path
                    if pos < m {
                        assert(ps[pos as int] == strs@[pos as int]@);
                        assert(path_lt(s@, ps[pos as int]));
                    }
                    assert forall|e: int| pos <= e < m implies path_lt(s@, #[trigger] ps[e]) by {
                        if e > pos {
                            assert(path_lt(ps[pos as int], ps[e]));
                        }
                    }
                    assert forall|e: int| 0 <= e < pos implies path_lt(#[trigger] ps[e], s@) by {
                        assert(key_lt(comps_view(keys@[e]@), comps_view(key@)));
                    }
                    assert forall|j: int| 0 <= j < ix implies !same_path(#[trigger] inputs[j],
                        inputs[ix as int]) by {
                        assert(inputs[j] == inputs[j]);
                        let e = choose|e: int| 0 <= e < strs@.len() && same_path(strs@[e]@, inputs[j]);
                        assert(ps[e] == strs@[e]@);
                        if e < pos {
                            assert(path_lt(ps[e], s@));
                        } else {
                            assert(path_lt(s@, ps[e]));
                        }
                    }
                    assert(is_first(inputs, ix as int));
                    lemma_insert_sorted(ps, pos as int, s@);
                }
                keys.insert(pos, key);
                strs.insert(pos, s);
                idxs.insert(pos, ix);
                proof {
                    assert(string_views(strs@) =~= ps.insert(pos as int, s@));
                    assert forall|e: int| 0 <= e < keys@.len() implies comps_view(#[trigger] keys@[e]@)
                        == path_components(strs@[e]@) by {
                        if e < pos {
                            assert(keys@[e] == old_keys[e] && strs@[e] == old_strs[e]);
                        } else if e > pos {
                            assert(keys@[e] == old_keys[e - 1] && strs@[e] == old_strs[e - 1]);
                        }
                    }
                    assert forall|e: int| 0 <= e < idxs@.len() implies {
                        &&& #[trigger] idxs@[e] < ix + 1
                        &&& is_first(inputs, idxs@[e] as int)
                        &&& strs@[e]@ == inputs[idxs@[e] as int]
                    } by {
                        if e < pos {
                            assert(idxs@[e] == old_idxs[e] && strs@[e] == old_strs[e]);
                        } else if e > pos {
                            assert(idxs@[e] == old_idxs[e - 1] && strs@[e] == old_strs[e - 1]);
                        }
                    }
                    assert forall|k: int|
                        0 <= k < ix + 1 && is_first(inputs, k) implies exists|e: int|
                            0 <= e < idxs@.len() && #[trigger] idxs@[e] == k by {
                        if k == ix {
                            assert(idxs@[pos as int] == k);
                        } else {
                            let e = choose|e: int| 0 <= e < old_idxs.len() && old_idxs[e] == k;
                            if e < pos {
                                assert(idxs@[e] == k);
                            } else {
                                assert(idxs@[e + 1] == k);
                            }
                        }
                    }
                    assert forall|k: int| #![trigger inputs[k]] 0 <= k < ix + 1 implies exists|e: int|
                        #![trigger strs@[e]]
                        0 <= e < strs@.len() && same_path(strs@[e]@, inputs[k]) by {
                        if k == ix {
                            assert(same_path(strs@[pos as int]@, inputs[k]));
                        } else {
                            let e = choose|e: int| 0 <= e < old_strs.len() && same_path(old_strs[e]@, inputs[k]);
                            if e < pos {
                                assert(same_path(strs@[e]@, inputs[k]));
                            } else {
                                assert(same_path(strs@[e + 1]@, inputs[k]));
                            }
                        }
                    }
                }
            }
            ix = ix + 1;
        }
        proof {
            let ps = string_views(strs@);
            assert forall|i: int, j: int|
                0 <= i < idxs@.len() && 0 <= j < idxs@.len() && i != j implies idxs@[i] != idxs@[j] by {
                if idxs@[i] == idxs@[j] {
                    assert(strs@[i]@ == strs@[j]@);
                    if i < j {
                        assert(path_lt(ps[i], ps[j]));
                    } else {
                        assert(path_lt(ps[j], ps[i]));
                    }
                }
            }
        }
        let r = PathList { paths: strs, order: idxs };
        assert(r.path_seq() == string_views(strs@));
        assert(r.wf());
        assert(forall|i: int|
            0 <= i < r.order_seq().len() ==> {
                &&& 0 <= #[trigger] r.order_seq()[i] < inputs.len()
                &&& is_first(inputs, r.order_seq()[i] as int)
                &&& r.path_seq()[i] == inputs[r.order_seq()[i] as int]
            });
        r
    }
}


/// Some position of `perm` holds `j`.
pub open spec fn covers(perm: Seq<int>, j: int) -> bool {
    exists|k: int| 0 <= k < perm.len() && perm[k] == j
}

/// `r` is a reordering of `v`: `perm` sends each position of `r` to a
/// distinct position of `v` holding the same value.
pub open spec fn reorders<T>(r: Seq<T>, v: Seq<T>, perm: Seq<int>) -> bool {
    &&& r.len() == v.len()
    &&& perm.len() == r.len()
    &&& forall|k: int| 0 <= k < perm.len() ==> 0 <= #[trigger] perm[k] < v.len()
    &&& forall|k1: int, k2: int|
        0 <= k1 < perm.len() && 0 <= k2 < perm.len() && k1 != k2 ==> perm[k1] != perm[k2]
    &&& forall|j: int| 0 <= j < v.len() ==> #[trigger] covers(perm, j)
    &&& forall|k: int| 0 <= k < r.len() ==> #[trigger] r[k] == v[perm[k]]
}

/// `Itertools::sorted_by_key` keyed by the first element of each pair:
/// the same pairs, reordered so that the first elements never decrease;
/// pairs with equal first elements keep their relative order.
#[verifier::external_body]
fn sorted_by_first(pairs: Vec<(usize, usize)>) -> (r: Vec<(usize, usize)>)
    ensures
        exists|perm: Seq<int>|
            {
                &&& reorders(r@, pairs@, perm)
                &&& forall|k1: int, k2: int|
                    0 <= k1 < k2 < r@.len() ==> {
                        &&& (#[trigger] r@[k1]).0 <= (#[trigger] r@[k2]).0
                        &&& r@[k1].0 == r@[k2].0 ==> perm[k1] < perm[k2]
                    }
            },
{
    pairs.into_iter().sorted_by_key(|pair| pair.0).collect()
}

/// `ordered` lists the paths `ps` in increasing order of their order
/// indices `ord`.
pub open spec fn in_display_order(
    ordered: Seq<Seq<char>>,
    ps: Seq<Seq<char>>,
    ord: Seq<usize>,
) -> bool {
    exists|perm: Seq<int>|
        {
            &&& #[trigger] reorders(ordered, ps, perm)
            &&& forall|k1: int, k2: int|
                0 <= k1 < k2 < perm.len() ==> ord[#[trigger] perm[k1]] < ord[#[trigger] perm[k2]]
        }
}

/// The paths kept from `ps` once every path that is the same as `p` is
/// taken out.
pub open spec fn without(ps: Seq<Seq<char>>, p: Seq<char>) -> Seq<Seq<char>>
    decreases ps.len(),
{
    if ps.len() == 0 {
        Seq::empty()
    } else {
        let prev = without(ps.drop_last(), p);
        if same_path(ps.last(), p) {
            prev
        } else {
            prev.push(ps.last())
        }
    }
}

impl PathList {
    pub fn is_empty(&self) -> (r: bool)
        ensures
            r == (self.path_seq().len() == 0),
    {
        self.paths.len() == 0
    }

    /// Get the paths in lexicographic order.
    pub fn paths(&self) -> (r: &[String])
        ensures
            string_views(r@) == self.path_seq(),
    {
        self.paths.as_slice()
    }

    /// Get the paths in the lexicographic order, as a list of its own.
    pub fn paths_owned(&self) -> (r: Vec<String>)
        ensures
            string_views(r@) == self.path_seq(),
    {
        let mut out: Vec<String> = Vec::new();
        let n = self.paths.len();
        let mut i: usize = 0;
        while i < n
            invariant
                n == self.paths@.len(),
                i <= n,
                string_views(out@) == string_views(self.paths@).take(i as int),
            decreases n - i,
        {
            let c = self.paths[i].clone();
            let ghost before = out@;
            out.push(c);
            assert(out@ == before.push(self.paths@[i as int]));
            assert(string_views(out@) =~= string_views(before).push(self.paths@[i as int]@));
            assert(string_views(self.paths@).take(i + 1) =~= string_views(self.paths@).take(
                i as int,
            ).push(self.paths@[i as int]@));
            i = i + 1;
        }
        assert(string_views(self.paths@).take(n as int) =~= string_views(self.paths@));
        out
    }

    /// Get the order in which the paths were provided.
    pub fn order(&self) -> (r: &[usize])
        ensures
            r@ == self.order_seq(),
    {
        self.order.as_slice()
    }

    /// Get the paths in the original order.
    pub fn ordered_paths(&self) -> (r: Vec<String>)
        requires
            self.wf(),
        ensures
            in_display_order(string_views(r@), self.path_seq(), self.order_seq()),
    {
        let n = self.order.len();
        let mut pairs: Vec<(usize, usize)> = Vec::new();
        let mut i: usize = 0;
        while i < n
            invariant
                n == self.order@.len(),
                n == self.paths@.len(),
                i <= n,
                pairs@.len() == i,
                forall|k: int| 0 <= k < i ==> #[trigger] pairs@[k] == (self.order@[k], k as usize),
            decreases n - i,
        {
            pairs.push((self.order[i], i));
            i = i + 1;
        }
        let ghost pairs_view = pairs@;
        let sorted = sorted_by_first(pairs);
        let ghost perm = choose|perm: Seq<int>|
            {
                &&& reorders(sorted@, pairs_view, perm)
                &&& forall|k1: int, k2: int|
                    0 <= k1 < k2 < sorted@.len() ==> {
                        &&& (#[trigger] sorted@[k1]).0 <= (#[trigger] sorted@[k2]).0
                        &&& sorted@[k1].0 == sorted@[k2].0 ==> perm[k1] < perm[k2]
                    }
            };
        let mut out: Vec<String> = Vec::new();
        let mut k: usize = 0;
        while k < n
            invariant
                n == sorted@.len(),
                n == self.paths@.len(),
                k <= n,
                out@.len() == k,
                reorders(sorted@, pairs_view, perm),
                forall|j: int| 0 <= j < n ==> #[trigger] pairs_view[j] == (self.order@[j], j as usize),
                forall|j: int| 0 <= j < k ==> (#[trigger] out@[j])@ == self.paths@[perm[j]]@,
            decreases n - k,
        {
            let idx = sorted[k].1;
            assert(sorted@[k as int] == pairs_view[perm[k as int]]);
            out.push(self.paths[idx].clone());
            k = k + 1;
        }
        proof {
            let ov = string_views(out@);
            let ps = self.path_seq();
            assert(reorders(ov, ps, perm));
            assert forall|k1: int, k2: int| 0 <= k1 < k2 < perm.len() implies self.order_seq()[#[trigger] perm[k1]]
                < self.order_seq()[#[trigger] perm[k2]] by {
                assert(sorted@[k1] == pairs_view[perm[k1]]);
                assert(sorted@[k2] == pairs_view[perm[k2]]);
                assert(perm[k1] != perm[k2]);
                assert(sorted@[k1].0 <= sorted@[k2].0);
            }
        }
        out
    }

    pub fn is_lexicographically_ordered(&self) -> (r: bool)
        ensures
            r == (forall|i: int| 0 <= i < self.order_seq().len() ==> #[trigger] self.order_seq()[i] == i),
    {
        let n = self.order.len();
        let mut i: usize = 0;
        while i < n
            invariant
                n == self.order@.len(),
                i <= n,
                forall|j: int| 0 <= j < i ==> #[trigger] self.order@[j] == j,
            decreases n - i,
        {
            if self.order[i] != i {
                assert(self.order_seq()[i as int] != i);
                return false;
            }
            i = i + 1;
        }
        true
    }

    /// Returns a new `PathList` with the given path removed: the paths in
    /// their original order, without those that are the same path as
    /// `path_to_remove`, built anew.
    pub fn without_path(&self, path_to_remove: &str) -> (r: PathList)
        requires
            self.wf(),
        ensures
            exists|ordered: Seq<Seq<char>>|
                {
                    &&& in_display_order(ordered, self.path_seq(), self.order_seq())
                    &&& #[trigger] r.built_from(without(ordered, path_to_remove@))
                },
    {
        let ordered = self.ordered_paths();
        let target_chars = chars_of(path_to_remove);
        let target = components_of(target_chars.as_slice());
        let mut kept: Vec<&str> = Vec::new();
        let n = ordered.len();
        let mut i: usize = 0;
        while i < n
            invariant
                n == ordered@.len(),
                i <= n,
                comps_view(target@) == path_components(path_to_remove@),
                str_views(kept@) == without(string_views(ordered@).take(i as int), path_to_remove@),
            decreases n - i,
        {
            let p: &str = ordered[i].as_str();
            let chars = chars_of(p);
            let key = components_of(chars.as_slice());
            let ghost before = str_views(kept@);
            assert(string_views(ordered@).take(i + 1).drop_last() =~= string_views(ordered@).take(i as int));
            assert(string_views(ordered@).take(i + 1).last() == p@);
            if compare_components(&key, &target) != 0 {
                kept.push(p);
                assert(str_views(kept@) =~= before.push(p@));
            }
            i = i + 1;
        }
        assert(string_views(ordered@).take(n as int) =~= string_views(ordered@));
        PathList::new(kept.as_slice())
    }
}


impl PartialEq for PathList {
    fn eq(&self, other: &Self) -> (r: bool) {
        let n = self.paths.len();
        if n != other.paths.len() {
            assert(self.key_seq().len() != other.key_seq().len());
            return false;
        }
        let mut i: usize = 0;
        while i < n
            invariant
                n == self.paths@.len(),
                n == other.paths@.len(),
                i <= n,
                forall|j: int| 0 <= j < i ==> #[trigger] self.key_seq()[j] == other.key_seq()[j],
            decreases n - i,
        {
            let a = chars_of(self.paths[i].as_str());
            let b = chars_of(other.paths[i].as_str());
            let ka = components_of(a.as_slice());
            let kb = components_of(b.as_slice());
            if compare_components(&ka, &kb) != 0 {
                assert(self.key_seq()[i as int] != other.key_seq()[i as int]);
                return false;
            }
            i = i + 1;
        }
        assert(self.key_seq() =~= other.key_seq());
        true
    }
}

impl vstd::std_specs::cmp::PartialEqSpecImpl for PathList {
    open spec fn obeys_eq_spec() -> bool {
        true
    }

    /// Two lists are equal when they hold the same paths (component by
    /// component), whatever their display order.
    open spec fn eq_spec(&self, other: &PathList) -> bool {
        self.key_seq() == other.key_seq()
    }
}

impl Eq for PathList {}

impl std::hash::Hash for PathList {
    /// std's `Hash` of the paths, each taken as a `PathBuf`: the stored
    /// texts converted one for one, then hashed as a `Vec<PathBuf>`. The
    /// display order is not hashed. Nothing is claimed of the hasher's
    /// state, and nothing here states that lists which are `==` hash alike;
    /// that rests on std's `Path`, whose hash follows its component-wise
    /// equality.
    #[verifier::external_body]
    fn hash<H: std::hash::Hasher>(&self, state: &mut H) {
        let paths: Vec<std::path::PathBuf> = self.paths.iter().map(std::path::PathBuf::from).collect();
        paths.hash(state);
    }
}

impl Default for PathList {
    fn default() -> (r: Self)
        ensures
            r.path_seq() == Seq::<Seq<char>>::empty(),
            r.order_seq() == Seq::<usize>::empty(),
            r.wf(),
    {
        let r = PathList { paths: Vec::new(), order: Vec::new() };
        assert(r.path_seq() =~= Seq::<Seq<char>>::empty());
        r
    }
}

/// A `PathList` written as two strings: the paths joined by newlines, and
/// the order indices in decimal joined by commas.
#[derive(Debug, Clone)]
pub struct SerializedPathList {
    pub paths: String,
    pub order: String,
}

/// The decimal form of each index.
pub open spec fn decimals(ord: Seq<usize>) -> Seq<Seq<char>> {
    ord.map_values(|i: usize| decimal(i as nat))
}

/// The indices that the parts spell, skipping parts that are not a `usize`.
pub open spec fn parsed_indices(parts: Seq<Seq<char>>) -> Seq<usize>
    decreases parts.len(),
{
    if parts.len() == 0 {
        Seq::empty()
    } else {
        let prev = parsed_indices(parts.drop_last());
        match parse_usize(parts.last()) {
            Some(v) => prev.push(v),
            None => prev,
        }
    }
}

/// The paths of a serialized path text: none for an empty text, else its
/// newline-separated pieces.
pub open spec fn split_paths(text: Seq<char>) -> Seq<Seq<char>> {
    if text.len() == 0 {
        Seq::empty()
    } else {
        split(text, '\n')
    }
}

/// `x` placed after the last element of `sorted` whose index is not larger
/// than its own.
pub open spec fn insert_by_index(sorted: Seq<(usize, Seq<char>)>, x: (usize, Seq<char>)) -> Seq<
    (usize, Seq<char>),
>
    decreases sorted.len(),
{
    if sorted.len() == 0 {
        seq![x]
    } else if sorted.last().0 <= x.0 {
        sorted.push(x)
    } else {
        insert_by_index(sorted.drop_last(), x).push(sorted.last())
    }
}

/// The pairs stably sorted by index.
pub open spec fn sort_by_index(pairs: Seq<(usize, Seq<char>)>) -> Seq<(usize, Seq<char>)>
    decreases pairs.len(),
{
    if pairs.len() == 0 {
        Seq::empty()
    } else {
        insert_by_index(sort_by_index(pairs.drop_last()), pairs.last())
    }
}

/// The paths that `deserialize` builds its list from: when the parsed
/// indices are as many as the paths, the paths reordered by their indices
/// (stably); otherwise the paths as they come.
pub open spec fn deserialize_inputs(paths_text: Seq<char>, order_text: Seq<char>) -> Seq<Seq<char>> {
    let ps = split_paths(paths_text);
    let ixs = parsed_indices(split(order_text, ','));
    if ixs.len() == ps.len() {
        sort_by_index(Seq::new(ps.len(), |i: int| (ixs[i], ps[i]))).map_values(
            |p: (usize, Seq<char>)| p.1,
        )
    } else {
        ps
    }
}

/// Inserts `x` into pairs sorted by index, after those whose index is not
/// larger.
fn insert_pair(sorted: &mut Vec<(usize, String)>, x: (usize, String))
    ensures
        pair_views(final(sorted)@) == insert_by_index(pair_views(old(sorted)@), (x.0, x.1@)),
{
    let ghost s = pair_views(sorted@);
    let ghost xv = (x.0, x.1@);
    let mut pos: usize = sorted.len();
    assert(s.take(pos as int) =~= s);
    assert(s.skip(pos as int) =~= Seq::<(usize, Seq<char>)>::empty());
    while pos > 0 && sorted[pos - 1].0 > x.0
        invariant
            pos <= sorted@.len(),
            s == pair_views(sorted@),
            xv == (x.0, x.1@),
            insert_by_index(s, xv) == insert_by_index(s.take(pos as int), xv) + s.skip(pos as int),
        decreases pos,
    {
        assert(s.take(pos as int).drop_last() =~= s.take(pos - 1));
        assert(s.take(pos as int).last() == s[pos - 1]);
        assert(s[pos - 1].0 == sorted@[pos - 1].0);
        assert(sorted@[pos - 1].0 > xv.0);
        assert(!(s.take(pos as int).last().0 <= xv.0));
        assert(s.take(pos as int).len() > 0);
        assert(insert_by_index(s.take(pos as int), xv) == insert_by_index(s.take(pos - 1), xv).push(
            s[pos - 1],
        ));
        assert(s.skip(pos - 1) =~= seq![s[pos - 1]] + s.skip(pos as int));
        assert(insert_by_index(s.take(pos - 1), xv).push(s[pos - 1]) + s.skip(pos as int)
            =~= insert_by_index(s.take(pos - 1), xv) + s.skip(pos - 1));
        pos = pos - 1;
    }
    proof {
        if pos > 0 {
            assert(s.take(pos as int).last() == s[pos - 1]);
        }
        assert(s.take(pos as int).push(xv) + s.skip(pos as int) =~= s.insert(pos as int, xv));
    }
    sorted.insert(pos, x);
    assert(pair_views(sorted@) =~= s.insert(pos as int, xv));
}

/// Each pair with its string as characters.
pub open spec fn pair_views(v: Seq<(usize, String)>) -> Seq<(usize, Seq<char>)> {
    v.map_values(|p: (usize, String)| (p.0, p.1@))
}

impl PathList {
    /// Writes the list as two strings: the paths (in lexicographic order)
    /// joined by newlines, and the order indices in decimal joined by commas.
    pub fn serialize(&self) -> (r: SerializedPathList)
        ensures
            r.paths@ == join_nonempty(self.path_seq(), '\n'),
            r.order@ == join_nonempty(decimals(self.order_seq()), ','),
    {
        let mut paths = String::new();
        let n = self.paths.len();
        let mut i: usize = 0;
        while i < n
            invariant
                n == self.paths@.len(),
                i <= n,
                paths@ == join_nonempty(self.path_seq().take(i as int), '\n'),
            decreases n - i,
        {
            assert(self.path_seq().take(i + 1).drop_last() =~= self.path_seq().take(i as int));
            assert(self.path_seq().take(i + 1).last() == self.paths@[i as int]@);
            if !paths.as_str().is_empty() {
                paths.push('\n');
            }
            paths.push_str(self.paths[i].as_str());
            i = i + 1;
        }
        assert(self.path_seq().take(n as int) =~= self.path_seq());
        let mut order = String::new();
        let m = self.order.len();
        let mut j: usize = 0;
        while j < m
            invariant
                m == self.order@.len(),
                j <= m,
                order@ == join_nonempty(decimals(self.order_seq()).take(j as int), ','),
            decreases m - j,
        {
            assert(decimals(self.order_seq()).take(j + 1).drop_last() =~= decimals(
                self.order_seq(),
            ).take(j as int));
            if !order.as_str().is_empty() {
                order.push(',');
            }
            let digits = decimal_string(self.order[j]);
            order.push_str(digits.as_str());
            j = j + 1;
        }
        assert(decimals(self.order_seq()).take(m as int) =~= decimals(self.order_seq()));
        SerializedPathList { paths, order }
    }

    /// Reads a list back from its serialized form. Rows written with the
    /// same path twice heal: the list is rebuilt through `new`, from the
    /// paths put back in their original order when the order indices are
    /// well-formed (as many as the paths), else in the order given.
    pub fn deserialize(serialized: &SerializedPathList) -> (r: PathList)
        ensures
            r.built_from(deserialize_inputs(serialized.paths@, serialized.order@)),
    {
        // the paths
        let text = chars_of(serialized.paths.as_str());
        let mut paths_vec: Vec<String> = Vec::new();
        if text.len() > 0 {
            let pieces = split_chars(text.as_slice(), '\n');
            let k = pieces.len();
            let mut i: usize = 0;
            while i < k
                invariant
                    k == pieces@.len(),
                    i <= k,
                    string_views(paths_vec@) == views(pieces@).take(i as int),
                decreases k - i,
            {
                let piece = string_from_chars(pieces[i].as_slice(), 0, pieces[i].len());
                assert(pieces@[i as int]@.subrange(0, pieces@[i as int]@.len() as int) =~= pieces@[i as int]@);
                let ghost before = paths_vec@;
                paths_vec.push(piece);
                assert(string_views(paths_vec@) =~= string_views(before).push(piece@));
                assert(views(pieces@).take(i + 1) =~= views(pieces@).take(i as int).push(pieces@[i as int]@));
                i = i + 1;
            }
            assert(views(pieces@).take(k as int) =~= views(pieces@));
        } else {
            assert(string_views(paths_vec@) =~= Seq::<Seq<char>>::empty());
        }
        let ghost ps = split_paths(serialized.paths@);
        assert(string_views(paths_vec@) == ps);
        // the order indices
        let order_text = chars_of(serialized.order.as_str());
        let parts = split_chars(order_text.as_slice(), ',');
        let ghost pv = views(parts@);
        let mut order_vec: Vec<usize> = Vec::new();
        let np = parts.len();
        let mut j: usize = 0;
        while j < np
            invariant
                np == parts@.len(),
                pv == views(parts@),
                j <= np,
                order_vec@ == parsed_indices(pv.take(j as int)),
            decreases np - j,
        {
            assert(pv.take(j + 1).drop_last() =~= pv.take(j as int));
            assert(pv.take(j + 1).last() == parts@[j as int]@);
            assert(parts@[j as int]@.subrange(0, parts@[j as int]@.len() as int) =~= parts@[j as int]@);
            match parse_usize_chars(parts[j].as_slice(), 0, parts[j].len()) {
                Some(v) => {
                    order_vec.push(v);
                },
                None => {},
            }
            j = j + 1;
        }
        assert(pv.take(np as int) =~= pv);
        let ghost ixs = order_vec@;
        let n = paths_vec.len();
        let originals: Vec<String> = if order_vec.len() == n {
            let ghost zipped = Seq::new(ps.len(), |i: int| (ixs[i], ps[i]));
            let mut sorted: Vec<(usize, String)> = Vec::new();
            let mut u: usize = 0;
            assert(zipped.take(0) =~= Seq::<(usize, Seq<char>)>::empty());
            while u < n
                invariant
                    u <= n,
                    n == zipped.len(),
                    n == paths_vec@.len(),
                    n == order_vec@.len(),
                    zipped == Seq::new(ps.len(), |i: int| (ixs[i], ps[i])),
                    ixs == order_vec@,
                    ps == string_views(paths_vec@),
                    pair_views(sorted@) == sort_by_index(zipped.take(u as int)),
                decreases n - u,
            {
                let x = (order_vec[u], paths_vec[u].clone());
                assert((x.0, x.1@) == zipped[u as int]);
                insert_pair(&mut sorted, x);
                assert(zipped.take(u + 1).drop_last() =~= zipped.take(u as int));
                assert(zipped.take(u + 1).last() == zipped[u as int]);
                u = u + 1;
            }
            assert(zipped.take(n as int) =~= zipped);
            let ghost sv = pair_views(sorted@);
            let mut out: Vec<String> = Vec::new();
            let total = sorted.len();
            let mut w: usize = 0;
            while w < total
                invariant
                    w <= total,
                    total == sorted@.len(),
                    sv == pair_views(sorted@),
                    out@.len() == w,
                    forall|q: int| 0 <= q < w ==> (#[trigger] out@[q])@ == sv[q].1,
                decreases total - w,
            {
                out.push(sorted[w].1.clone());
                w = w + 1;
            }
            assert(string_views(out@) =~= sv.map_values(|p: (usize, Seq<char>)| p.1));
            out
        } else {
            paths_vec
        };
        let mut refs: Vec<&str> = Vec::new();
        let no = originals.len();
        let mut z: usize = 0;
        while z < no
            invariant
                no == originals@.len(),
                z <= no,
                str_views(refs@) == string_views(originals@).take(z as int),
            decreases no - z,
        {
            let ghost before = refs@;
            refs.push(originals[z].as_str());
            assert(str_views(refs@) =~= str_views(before).push(originals@[z as int]@));
            assert(string_views(originals@).take(z + 1) =~= string_views(originals@).take(z as int).push(originals@[z as int]@));
            z = z + 1;
        }
        assert(string_views(originals@).take(no as int) =~= string_views(originals@));
        assert(string_views(originals@) == deserialize_inputs(serialized.paths@, serialized.order@));
        PathList::new(refs.as_slice())
    }
}


/// Each element orders strictly before the later ones under `lt`.
pub open spec fn increasing<T>(s: Seq<T>, lt: spec_fn(T, T) -> bool) -> bool {
    forall|i: int, j: int| 0 <= i < j < s.len() ==> #[trigger] lt(s[i], s[j])
}

/// `lt` is irreflexive and transitive.
pub open spec fn strict_order<T>(lt: spec_fn(T, T) -> bool) -> bool {
    &&& forall|x: T| !#[trigger] lt(x, x)
    &&& forall|x: T, y: T, z: T| #[trigger] lt(x, y) && #[trigger] lt(y, z) ==> lt(x, z)
}

/// `lt` relates any two different elements of `s`.
pub open spec fn total_on<T>(s: Seq<T>, lt: spec_fn(T, T) -> bool) -> bool {
    forall|x: T, y: T| s.contains(x) && s.contains(y) && x != y ==> #[trigger] lt(x, y) || #[trigger] lt(y, x)
}

proof fn lemma_increasing_drop_first<T>(a: Seq<T>, lt: spec_fn(T, T) -> bool, x: T)
    requires
        strict_order(lt),
        increasing(a, lt),
        a.len() > 0,
    ensures
        a.drop_first().contains(x) <==> (a.contains(x) && x != a[0]),
{
    if a.drop_first().contains(x) {
        let i = choose|i: int| 0 <= i < a.drop_first().len() && a.drop_first()[i] == x;
        assert(a[i + 1] == x);
        assert(lt(a[0], a[i + 1]));
    }
    if a.contains(x) && x != a[0] {
        let i = choose|i: int| 0 <= i < a.len() && a[i] == x;
        assert(i != 0);
        assert(a.drop_first()[i - 1] == x);
    }
}

/// Two sequences, each increasing under a strict order that relates any
/// two of their different elements, and holding the same elements, are
/// the same sequence.
pub proof fn lemma_increasing_unique<T>(a: Seq<T>, b: Seq<T>, lt: spec_fn(T, T) -> bool)
    requires
        strict_order(lt),
        total_on(a, lt),
        increasing(a, lt),
        increasing(b, lt),
        forall|x: T| a.contains(x) <==> b.contains(x),
    ensures
        a == b,
    decreases a.len(),
{
    if a.len() == 0 {
        if b.len() > 0 {
            assert(b.contains(b[0]));
        }
        assert(a =~= b);
    } else {
        assert(a.contains(a[0]));
        assert(b.contains(a[0]));
        assert(b.len() > 0);
        assert(b.contains(b[0]));
        assert(a.contains(b[0]));
        if a[0] != b[0] {
            let j = choose|j: int| 0 <= j < b.len() && b[j] == a[0];
            let i = choose|i: int| 0 <= i < a.len() && a[i] == b[0];
            assert(j > 0 && i > 0);
            assert(lt(b[0], b[j]));
            assert(lt(a[0], a[i]));
            assert(lt(a[0], a[0]));
        }
        assert forall|x: T| a.drop_first().contains(x) <==> b.drop_first().contains(x) by {
            lemma_increasing_drop_first(a, lt, x);
            lemma_increasing_drop_first(b, lt, x);
        }
        assert forall|x: T, y: T| a.drop_first().contains(x) && a.drop_first().contains(y) && x != y
            implies #[trigger] lt(x, y) || #[trigger] lt(y, x) by {
            lemma_increasing_drop_first(a, lt, x);
            lemma_increasing_drop_first(a, lt, y);
        }
        assert(increasing(a.drop_first(), lt)) by {
            assert forall|i: int, j: int| 0 <= i < j < a.drop_first().len() implies #[trigger] lt(
                a.drop_first()[i],
                a.drop_first()[j],
            ) by {
                assert(lt(a[i + 1], a[j + 1]));
            }
        }
        assert(increasing(b.drop_first(), lt)) by {
            assert forall|i: int, j: int| 0 <= i < j < b.drop_first().len() implies #[trigger] lt(
                b.drop_first()[i],
                b.drop_first()[j],
            ) by {
                assert(lt(b[i + 1], b[j + 1]));
            }
        }
        lemma_increasing_unique(a.drop_first(), b.drop_first(), lt);
        assert(a =~= seq![a[0]] + a.drop_first());
        assert(b =~= seq![b[0]] + b.drop_first());
    }
}

/// Every input has an earliest input that is the same path.
proof fn lemma_first_occurrence(inputs: Seq<Seq<char>>, k: int)
    requires
        0 <= k < inputs.len(),
    ensures
        exists|k0: int| 0 <= k0 <= k && is_first(inputs, k0) && #[trigger] same_path(inputs[k0], inputs[k]),
    decreases k,
{
    if !is_first(inputs, k) {
        let j = choose|j: int| 0 <= j < k && same_path(#[trigger] inputs[j], inputs[k]);
        lemma_first_occurrence(inputs, j);
        let k0 = choose|k0: int| 0 <= k0 <= j && is_first(inputs, k0) && #[trigger] same_path(inputs[k0], inputs[j]);
        assert(same_path(inputs[k0], inputs[k]));
    } else {
        assert(same_path(inputs[k], inputs[k]));
    }
}

/// The components held by a list built from `inputs` are exactly those of
/// the inputs, and they increase strictly.
pub proof fn lemma_built_keys(l: PathList, inputs: Seq<Seq<char>>)
    requires
        l.built_from(inputs),
    ensures
        increasing(l.key_seq(), |a: Seq<(u8, Seq<char>)>, b: Seq<(u8, Seq<char>)>| key_lt(a, b)),
        forall|x: Seq<(u8, Seq<char>)>|
            l.key_seq().contains(x) <==> inputs.map_values(|p: Seq<char>| path_components(p)).contains(x),
{
    let ks = l.key_seq();
    let ps = l.path_seq();
    let ord = l.order_seq();
    let ins = inputs.map_values(|p: Seq<char>| path_components(p));
    let kl = |a: Seq<(u8, Seq<char>)>, b: Seq<(u8, Seq<char>)>| key_lt(a, b);
    assert forall|i: int, j: int| 0 <= i < j < ks.len() implies #[trigger] kl(ks[i], ks[j]) by {
        assert(path_lt(ps[i], ps[j]));
    }
    assert forall|x: Seq<(u8, Seq<char>)>| ks.contains(x) <==> ins.contains(x) by {
        if ks.contains(x) {
            let i = choose|i: int| 0 <= i < ks.len() && ks[i] == x;
            assert(ord[i] == ord[i]);
            assert(ins[ord[i] as int] == x);
        }
        if ins.contains(x) {
            let k = choose|k: int| 0 <= k < ins.len() && ins[k] == x;
            lemma_first_occurrence(inputs, k);
            let k0 = choose|k0: int| 0 <= k0 <= k && is_first(inputs, k0) && #[trigger] same_path(inputs[k0], inputs[k]);
            let i = choose|i: int| 0 <= i < ord.len() && #[trigger] ord[i] == k0;
            assert(ks[i] == x);
        }
    }
}

/// Lists built from inputs that name the same paths are equal, whatever
/// order the paths were given in and however often each was repeated.
pub proof fn lemma_same_paths_equal(l1: PathList, a: Seq<Seq<char>>, l2: PathList, b: Seq<Seq<char>>)
    requires
        l1.built_from(a),
        l2.built_from(b),
        forall|i: int|
            #![trigger a[i]]
            0 <= i < a.len() ==> exists|j: int| #![trigger b[j]] 0 <= j < b.len() && same_path(a[i], b[j]),
        forall|j: int|
            #![trigger b[j]]
            0 <= j < b.len() ==> exists|i: int| #![trigger a[i]] 0 <= i < a.len() && same_path(a[i], b[j]),
    ensures
        l1.key_seq() == l2.key_seq(),
        l1.eq_spec(&l2),
{
    lemma_built_keys(l1, a);
    lemma_built_keys(l2, b);
    lemma_key_order();
    let kl = |x: Seq<(u8, Seq<char>)>, y: Seq<(u8, Seq<char>)>| key_lt(x, y);
    let ia = a.map_values(|p: Seq<char>| path_components(p));
    let ib = b.map_values(|p: Seq<char>| path_components(p));
    assert forall|x: Seq<(u8, Seq<char>)>| l1.key_seq().contains(x) <==> l2.key_seq().contains(x) by {
        if ia.contains(x) {
            let i = choose|i: int| 0 <= i < ia.len() && ia[i] == x;
            assert(a[i] == a[i]);
            let j = choose|j: int| #![trigger b[j]] 0 <= j < b.len() && same_path(a[i], b[j]);
            assert(ib[j] == x);
        }
        if ib.contains(x) {
            let j = choose|j: int| 0 <= j < ib.len() && ib[j] == x;
            assert(b[j] == b[j]);
            let i = choose|i: int| #![trigger a[i]] 0 <= i < a.len() && same_path(a[i], b[j]);
            assert(ia[i] == x);
        }
    }
    lemma_increasing_unique(l1.key_seq(), l2.key_seq(), kl);
}


/// The order `<` on integers.
pub open spec fn int_lt() -> spec_fn(int, int) -> bool {
    |a: int, b: int| a < b
}

/// The indices below `n` of the inputs that no earlier input repeats, in
/// increasing order.
pub open spec fn first_indices(inputs: Seq<Seq<char>>, n: int) -> Seq<int>
    decreases n,
{
    if n <= 0 {
        Seq::empty()
    } else {
        let prev = first_indices(inputs, n - 1);
        if is_first(inputs, n - 1) {
            prev.push(n - 1)
        } else {
            prev
        }
    }
}

/// The inputs with every repeated path dropped after its first occurrence,
/// in input order.
pub open spec fn first_occurrences(inputs: Seq<Seq<char>>) -> Seq<Seq<char>> {
    first_indices(inputs, inputs.len() as int).map_values(|k: int| inputs[k])
}

proof fn lemma_first_indices(inputs: Seq<Seq<char>>, n: int)
    requires
        0 <= n <= inputs.len(),
    ensures
        increasing(first_indices(inputs, n), int_lt()),
        forall|k: int|
            #[trigger] first_indices(inputs, n).contains(k) <==> (0 <= k < n && is_first(inputs, k)),
    decreases n,
{
    if n > 0 {
        lemma_first_indices(inputs, n - 1);
        let prev = first_indices(inputs, n - 1);
        let cur = first_indices(inputs, n);
        assert(forall|i: int| 0 <= i < prev.len() ==> prev[i] < n - 1) by {
            assert forall|i: int| 0 <= i < prev.len() implies prev[i] < n - 1 by {
                assert(prev.contains(prev[i]));
            }
        }
        if is_first(inputs, n - 1) {
            assert(cur == prev.push(n - 1));
            assert forall|i: int, j: int| 0 <= i < j < cur.len() implies #[trigger] int_lt()(
                cur[i],
                cur[j],
            ) by {
                assert(cur[i] == prev[i]);
                if j == cur.len() - 1 {
                    assert(cur[j] == n - 1);
                } else {
                    assert(cur[j] == prev[j]);
                    assert(int_lt()(prev[i], prev[j]));
                }
            }
            assert forall|k: int| #[trigger] cur.contains(k) <==> (0 <= k < n && is_first(inputs, k)) by {
                if cur.contains(k) && k != n - 1 {
                    let i = choose|i: int| 0 <= i < cur.len() && cur[i] == k;
                    assert(i != cur.len() - 1);
                    assert(prev[i] == k);
                    assert(prev.contains(k));
                }
                if 0 <= k < n - 1 && is_first(inputs, k) {
                    assert(prev.contains(k));
                    let i = choose|i: int| 0 <= i < prev.len() && prev[i] == k;
                    assert(cur[i] == k);
                }
                if k == n - 1 {
                    assert(cur[cur.len() - 1] == k);
                }
            }
        } else {
            assert(cur == prev);
            assert forall|k: int| #[trigger] cur.contains(k) <==> (0 <= k < n && is_first(inputs, k)) by {
                if cur.contains(k) {
                    assert(prev.contains(k));
                }
            }
        }
    }
}

/// The paths of a list built from `inputs`, in their display order, are
/// the inputs with every repeated path dropped after its first occurrence:
/// the original order is kept, duplicates collapse onto the first one.
pub proof fn lemma_display_order_of_built(
    l: PathList,
    inputs: Seq<Seq<char>>,
    ordered: Seq<Seq<char>>,
)
    requires
        l.built_from(inputs),
        in_display_order(ordered, l.path_seq(), l.order_seq()),
    ensures
        ordered == first_occurrences(inputs),
{
    let ps = l.path_seq();
    let ord = l.order_seq();
    let perm = choose|perm: Seq<int>|
        {
            &&& #[trigger] reorders(ordered, ps, perm)
            &&& forall|k1: int, k2: int|
                0 <= k1 < k2 < perm.len() ==> ord[#[trigger] perm[k1]] < ord[#[trigger] perm[k2]]
        };
    assert(reorders(ordered, ps, perm));
    let q = Seq::new(perm.len(), |k: int| ord[perm[k]] as int);
    let fi = first_indices(inputs, inputs.len() as int);
    let lt = int_lt();
    lemma_first_indices(inputs, inputs.len() as int);
    assert(increasing(q, lt)) by {
        assert forall|i: int, j: int| 0 <= i < j < q.len() implies #[trigger] lt(q[i], q[j]) by {
            assert(ord[perm[i]] < ord[perm[j]]);
        }
    }
    assert forall|k: int| q.contains(k) <==> fi.contains(k) by {
        if q.contains(k) {
            let i = choose|i: int| 0 <= i < q.len() && q[i] == k;
            assert(ord[perm[i]] == ord[perm[i]]);
        }
        if fi.contains(k) {
            let i = choose|i: int| 0 <= i < ord.len() && #[trigger] ord[i] == k;
            assert(0 <= i < ps.len());
            assert(covers(perm, i));
            let kk = choose|kk: int| 0 <= kk < perm.len() && perm[kk] == i;
            assert(q[kk] == k);
        }
    }
    lemma_increasing_unique(q, fi, lt);
    assert forall|k: int| 0 <= k < ordered.len() implies ordered[k] == first_occurrences(inputs)[k] by {
        assert(ordered[k] == ps[perm[k]]);
        assert(ord[perm[k]] == ord[perm[k]]);
    }
    assert(ordered =~= first_occurrences(inputs));
}


/// The indices never decrease along `s`.
pub open spec fn index_nondecreasing(s: Seq<(usize, Seq<char>)>) -> bool {
    forall|i: int, j: int| 0 <= i < j < s.len() ==> (#[trigger] s[i]).0 <= (#[trigger] s[j]).0
}

proof fn lemma_insert_by_index(s: Seq<(usize, Seq<char>)>, x: (usize, Seq<char>))
    ensures
        insert_by_index(s, x).len() == s.len() + 1,
        forall|y: (usize, Seq<char>)| #[trigger] insert_by_index(s, x).contains(y) <==> (s.contains(y) || y == x),
        index_nondecreasing(s) ==> index_nondecreasing(insert_by_index(s, x)),
        s.no_duplicates() && !s.contains(x) ==> insert_by_index(s, x).no_duplicates(),
    decreases s.len(),
{
    let r = insert_by_index(s, x);
    if s.len() == 0 {
        assert(r =~= seq![x]);
        assert forall|y: (usize, Seq<char>)| #[trigger] r.contains(y) <==> (s.contains(y) || y == x) by {
            if r.contains(y) {
                let i = choose|i: int| 0 <= i < r.len() && r[i] == y;
                assert(i == 0);
            }
            if y == x {
                assert(r[0] == x);
            }
        }
    } else if s.last().0 <= x.0 {
        assert(r == s.push(x));
        assert forall|y: (usize, Seq<char>)| #[trigger] r.contains(y) <==> (s.contains(y) || y == x) by {
            if r.contains(y) {
                let i = choose|i: int| 0 <= i < r.len() && r[i] == y;
                if i < s.len() {
                    assert(s[i] == y);
                }
            }
            if s.contains(y) {
                let i = choose|i: int| 0 <= i < s.len() && s[i] == y;
                assert(r[i] == y);
            }
            if y == x {
                assert(r[s.len() as int] == x);
            }
        }
        if index_nondecreasing(s) {
            assert forall|i: int, j: int| 0 <= i < j < r.len() implies (#[trigger] r[i]).0 <= (#[trigger] r[j]).0 by {
                if j == s.len() {
                    assert(r[i] == s[i]);
                    if i < s.len() - 1 {
                        assert(s[i].0 <= s[s.len() - 1].0);
                    }
                } else {
                    assert(r[i] == s[i] && r[j] == s[j]);
                }
            }
        }
    } else {
        let inner = insert_by_index(s.drop_last(), x);
        lemma_insert_by_index(s.drop_last(), x);
        assert(r == inner.push(s.last()));
        assert forall|y: (usize, Seq<char>)| s.drop_last().contains(y) implies s.contains(y) by {
            let i = choose|i: int| 0 <= i < s.drop_last().len() && s.drop_last()[i] == y;
            assert(s[i] == y);
        }
        assert forall|y: (usize, Seq<char>)| s.contains(y) implies s.drop_last().contains(y) || y
            == s.last() by {
            let i = choose|i: int| 0 <= i < s.len() && s[i] == y;
            if i < s.len() - 1 {
                assert(s.drop_last()[i] == y);
            }
        }
        assert forall|y: (usize, Seq<char>)| #[trigger] r.contains(y) <==> (s.contains(y) || y == x) by {
            if r.contains(y) {
                let i = choose|i: int| 0 <= i < r.len() && r[i] == y;
                if i < inner.len() {
                    assert(inner.contains(y));
                } else {
                    assert(y == s.last());
                    assert(s[s.len() - 1] == y);
                }
            }
            if s.contains(y) || y == x {
                if y == s.last() {
                    assert(r[inner.len() as int] == y);
                } else {
                    assert(inner.contains(y));
                    let i = choose|i: int| 0 <= i < inner.len() && inner[i] == y;
                    assert(r[i] == y);
                }
            }
        }
        if index_nondecreasing(s) {
            assert(index_nondecreasing(s.drop_last())) by {
                assert forall|i: int, j: int| 0 <= i < j < s.drop_last().len() implies (
                #[trigger] s.drop_last()[i]).0 <= (#[trigger] s.drop_last()[j]).0 by {
                    assert(s[i].0 <= s[j].0);
                }
            }
            assert forall|i: int, j: int| 0 <= i < j < r.len() implies (#[trigger] r[i]).0 <= (#[trigger] r[j]).0 by {
                if j == r.len() - 1 {
                    assert(r[i] == inner[i]);
                    assert(inner.contains(inner[i]));
                    if inner[i] != x {
                        let k = choose|k: int| 0 <= k < s.drop_last().len() && s.drop_last()[k] == inner[i];
                        assert(s[k].0 <= s[s.len() - 1].0);
                    }
                } else {
                    assert(r[i] == inner[i] && r[j] == inner[j]);
                }
            }
        }
        if s.no_duplicates() && !s.contains(x) {
            assert(s.drop_last().no_duplicates()) by {
                assert forall|i: int, j: int| 0 <= i < s.drop_last().len() && 0 <= j < s.drop_last().len()
                    && i != j implies s.drop_last()[i] != s.drop_last()[j] by {
                    assert(s[i] != s[j]);
                }
            }
            assert(!s.drop_last().contains(x));
            assert(!inner.contains(s.last())) by {
                if inner.contains(s.last()) {
                    assert(s.contains(s.last()) || s.last() == x);
                    if s.last() != x {
                        assert(s.drop_last().contains(s.last()));
                        let i = choose|i: int| 0 <= i < s.drop_last().len() && s.drop_last()[i] == s.last();
                        assert(s[i] == s[s.len() - 1]);
                    } else {
                        assert(s.contains(x));
                    }
                }
            }
            assert forall|i: int, j: int| 0 <= i < r.len() && 0 <= j < r.len() && i != j implies r[i] != r[j] by {
                if i < inner.len() && j < inner.len() {
                    assert(r[i] == inner[i] && r[j] == inner[j]);
                } else if i < inner.len() {
                    assert(inner.contains(inner[i]));
                } else {
                    assert(inner.contains(inner[j]));
                }
            }
        }
    }
}

proof fn lemma_sort_by_index(pairs: Seq<(usize, Seq<char>)>)
    ensures
        sort_by_index(pairs).len() == pairs.len(),
        forall|y: (usize, Seq<char>)| #[trigger] sort_by_index(pairs).contains(y) <==> pairs.contains(y),
        index_nondecreasing(sort_by_index(pairs)),
        pairs.no_duplicates() ==> sort_by_index(pairs).no_duplicates(),
    decreases pairs.len(),
{
    if pairs.len() > 0 {
        let front = pairs.drop_last();
        lemma_sort_by_index(front);
        lemma_insert_by_index(sort_by_index(front), pairs.last());
        assert forall|y: (usize, Seq<char>)| pairs.contains(y) <==> (front.contains(y) || y == pairs.last()) by {
            if pairs.contains(y) {
                let i = choose|i: int| 0 <= i < pairs.len() && pairs[i] == y;
                if i < front.len() {
                    assert(front[i] == y);
                }
            }
            if front.contains(y) {
                let i = choose|i: int| 0 <= i < front.len() && front[i] == y;
                assert(pairs[i] == y);
            }
            if y == pairs.last() {
                assert(pairs[pairs.len() - 1] == y);
            }
        }
        if pairs.no_duplicates() {
            assert(front.no_duplicates()) by {
                assert forall|i: int, j: int| 0 <= i < front.len() && 0 <= j < front.len() && i != j
                    implies front[i] != front[j] by {
                    assert(pairs[i] != pairs[j]);
                }
            }
            assert(!front.contains(pairs.last())) by {
                if front.contains(pairs.last()) {
                    let i = choose|i: int| 0 <= i < front.len() && front[i] == pairs.last();
                    assert(pairs[i] == pairs[pairs.len() - 1]);
                }
            }
        }
    } else {
        assert(sort_by_index(pairs) =~= Seq::<(usize, Seq<char>)>::empty());
    }
}


proof fn lemma_parsed_decimal_list(ord: Seq<usize>)
    ensures
        parsed_indices(decimals(ord)) == ord,
    decreases ord.len(),
{
    if ord.len() > 0 {
        lemma_parsed_decimal_list(ord.drop_last());
        assert(decimals(ord).drop_last() =~= decimals(ord.drop_last()));
        lemma_parse_decimal_usize(ord.last());
        assert(decimals(ord).last() == decimal(ord.last() as nat));
    } else {
        assert(decimals(ord) =~= Seq::<Seq<char>>::empty());
    }
}

/// The order text of a serialized list parses back to its order indices.
proof fn lemma_order_text(ord: Seq<usize>)
    ensures
        parsed_indices(split(join_nonempty(decimals(ord), ','), ',')) == ord,
{
    let ds = decimals(ord);
    if ord.len() == 0 {
        assert(ds =~= Seq::<Seq<char>>::empty());
        assert(split(Seq::<char>::empty(), ',') =~= seq![Seq::<char>::empty()]);
        assert(seq![Seq::<char>::empty()].drop_last() =~= Seq::<Seq<char>>::empty());
        assert(join_nonempty(ds, ',') == Seq::<char>::empty());
        assert(parse_usize(Seq::<char>::empty()).is_none());
        assert(seq![Seq::<char>::empty()].last() == Seq::<char>::empty());
        let t = seq![Seq::<char>::empty()];
        assert(t.len() == 1);
        assert(t.drop_last() =~= Seq::<Seq<char>>::empty());
        assert(parsed_indices(t.drop_last()) == Seq::<usize>::empty());
        assert(parse_usize(t.last()).is_none());
        assert(parsed_indices(t) == parsed_indices(t.drop_last()));
        assert(ord =~= Seq::<usize>::empty());
    } else {
        assert forall|i: int| 0 <= i < ds.len() implies (#[trigger] ds[i]).len() > 0 && !ds[i].contains(',') by {
            lemma_decimal_digits(ord[i] as nat);
            if ds[i].contains(',') {
                let k = choose|k: int| 0 <= k < ds[i].len() && ds[i][k] == ',';
                assert(is_digit(ds[i][k]));
            }
        }
        lemma_join_nonempty(ds, ',');
        lemma_split_join(ds, ',');
        lemma_parsed_decimal_list(ord);
    }
}

/// The path text of a serialized list splits back into its paths, when
/// no path is empty or holds a newline.
proof fn lemma_path_text(ps: Seq<Seq<char>>)
    requires
        forall|i: int| 0 <= i < ps.len() ==> (#[trigger] ps[i]).len() > 0 && !ps[i].contains('\n'),
    ensures
        split_paths(join_nonempty(ps, '\n')) == ps,
{
    lemma_join_nonempty(ps, '\n');
    if ps.len() > 0 {
        lemma_split_join(ps, '\n');
    } else {
        assert(ps =~= Seq::<Seq<char>>::empty());
    }
}

/// When no two inputs are the same path, every input is kept.
proof fn lemma_all_first(inputs: Seq<Seq<char>>)
    requires
        forall|i: int, j: int| 0 <= i < j < inputs.len() ==> !same_path(#[trigger] inputs[i], #[trigger] inputs[j]),
    ensures
        first_occurrences(inputs) == inputs,
{
    let n = inputs.len() as int;
    lemma_first_indices(inputs, n);
    let fi = first_indices(inputs, n);
    let all = Seq::new(n as nat, |i: int| i);
    assert forall|k: int| fi.contains(k) <==> all.contains(k) by {
        if 0 <= k < n {
            assert(all[k] == k);
            assert(is_first(inputs, k));
        }
    }
    assert(increasing(all, int_lt()));
    lemma_increasing_unique(all, fi, int_lt());
    assert(first_occurrences(inputs) =~= inputs);
}

/// A list keeps its paths and its display order through `serialize` and
/// `deserialize`, when none of its paths is empty or holds a newline: the
/// list rebuilt from the serialized text is equal to it, holds the same
/// path texts, and lists its paths in the same original order. When its
/// order indices are exactly `0..n` (a list built from inputs without
/// repeats), the order indices come back unchanged too.
pub proof fn lemma_serialize_round_trip(l: PathList, r: PathList)
    requires
        l.wf(),
        forall|i: int|
            0 <= i < l.path_seq().len() ==> (#[trigger] l.path_seq()[i]).len() > 0 && !l.path_seq()[i].contains('\n'),
        r.built_from(
            deserialize_inputs(
                join_nonempty(l.path_seq(), '\n'),
                join_nonempty(decimals(l.order_seq()), ','),
            ),
        ),
    ensures
        r.key_seq() == l.key_seq(),
        l.eq_spec(&r),
        forall|o1: Seq<Seq<char>>, o2: Seq<Seq<char>>|
            in_display_order(o1, l.path_seq(), l.order_seq()) && in_display_order(
                o2,
                r.path_seq(),
                r.order_seq(),
            ) ==> o1 == o2,
        r.path_seq() == l.path_seq(),
        (forall|i: int| 0 <= i < l.order_seq().len() ==> #[trigger] l.order_seq()[i] < l.order_seq().len())
            ==> r.order_seq() == l.order_seq(),
{
    let ps = l.path_seq();
    let ord = l.order_seq();
    let n = ps.len() as int;
    lemma_path_text(ps);
    lemma_order_text(ord);
    let zipped = Seq::new(ps.len(), |i: int| (ord[i], ps[i]));
    let sorted = sort_by_index(zipped);
    let originals = sorted.map_values(|p: (usize, Seq<char>)| p.1);
    assert(deserialize_inputs(join_nonempty(ps, '\n'), join_nonempty(decimals(ord), ',')) == originals);
    lemma_path_order();
    lemma_key_order();
    // the pairs are all different, and so are their indices
    assert(zipped.no_duplicates()) by {
        assert forall|i: int, j: int| 0 <= i < zipped.len() && 0 <= j < zipped.len() && i != j implies zipped[i]
            != zipped[j] by {
            assert(ord[i] != ord[j]);
        }
    }
    lemma_sort_by_index(zipped);
    let lt0 = |x: (usize, Seq<char>), y: (usize, Seq<char>)| x.0 < y.0;
    assert forall|x: (usize, Seq<char>), y: (usize, Seq<char>)|
        zipped.contains(x) && zipped.contains(y) && x != y implies x.0 != y.0 by {
        let i = choose|i: int| 0 <= i < zipped.len() && zipped[i] == x;
        let j = choose|j: int| 0 <= j < zipped.len() && zipped[j] == y;
        if i != j {
            assert(ord[i] != ord[j]);
        }
    }
    assert(increasing(sorted, lt0)) by {
        assert forall|i: int, j: int| 0 <= i < j < sorted.len() implies #[trigger] lt0(sorted[i], sorted[j]) by {
            assert(sorted[i].0 <= sorted[j].0);
            assert(sorted[i] != sorted[j]);
            assert(sorted.contains(sorted[i]) && sorted.contains(sorted[j]));
        }
    }
    // the originals are the paths, each once
    assert forall|i: int, j: int| 0 <= i < j < originals.len() implies !same_path(
        #[trigger] originals[i],
        #[trigger] originals[j],
    ) by {
        assert(sorted.contains(sorted[i]) && sorted.contains(sorted[j]));
        let a = choose|a: int| 0 <= a < zipped.len() && zipped[a] == sorted[i];
        let b = choose|b: int| 0 <= b < zipped.len() && zipped[b] == sorted[j];
        assert(sorted[i] != sorted[j]);
        assert(a != b);
        if a < b {
            assert(path_lt(ps[a], ps[b]));
        } else {
            assert(path_lt(ps[b], ps[a]));
        }
    }
    // equal: the same components, strictly increasing
    lemma_built_keys(r, originals);
    let kl = |a: Seq<(u8, Seq<char>)>, b: Seq<(u8, Seq<char>)>| key_lt(a, b);
    let ins = originals.map_values(|p: Seq<char>| path_components(p));
    assert(increasing(l.key_seq(), kl)) by {
        assert forall|i: int, j: int| 0 <= i < j < l.key_seq().len() implies #[trigger] kl(
            l.key_seq()[i],
            l.key_seq()[j],
        ) by {
            assert(path_lt(ps[i], ps[j]));
        }
    }
    assert forall|x: Seq<(u8, Seq<char>)>| r.key_seq().contains(x) <==> l.key_seq().contains(x) by {
        if ins.contains(x) {
            let k = choose|k: int| 0 <= k < ins.len() && ins[k] == x;
            assert(sorted.contains(sorted[k]));
            let a = choose|a: int| 0 <= a < zipped.len() && zipped[a] == sorted[k];
            assert(l.key_seq()[a] == x);
        }
        if l.key_seq().contains(x) {
            let a = choose|a: int| 0 <= a < l.key_seq().len() && l.key_seq()[a] == x;
            assert(zipped.contains(zipped[a]));
            assert(sorted.contains(zipped[a]));
            let k = choose|k: int| 0 <= k < sorted.len() && sorted[k] == zipped[a];
            assert(originals[k] == ps[a]);
            assert(ins[k] == x);
        }
    }
    lemma_increasing_unique(r.key_seq(), l.key_seq(), kl);
    // the same display order
    lemma_all_first(originals);
    assert forall|o1: Seq<Seq<char>>, o2: Seq<Seq<char>>|
        in_display_order(o1, ps, ord) && in_display_order(o2, r.path_seq(), r.order_seq()) implies o1
        == o2 by {
        lemma_display_order_of_built(r, originals, o2);
        let perm = choose|perm: Seq<int>|
            {
                &&& #[trigger] reorders(o1, ps, perm)
                &&& forall|k1: int, k2: int|
                    0 <= k1 < k2 < perm.len() ==> ord[#[trigger] perm[k1]] < ord[#[trigger] perm[k2]]
            };
        assert(reorders(o1, ps, perm));
        let p1 = Seq::new(perm.len(), |k: int| zipped[perm[k]]);
        assert(increasing(p1, lt0)) by {
            assert forall|i: int, j: int| 0 <= i < j < p1.len() implies #[trigger] lt0(p1[i], p1[j]) by {
                assert(ord[perm[i]] < ord[perm[j]]);
            }
        }
        assert forall|x: (usize, Seq<char>)| p1.contains(x) <==> sorted.contains(x) by {
            if p1.contains(x) {
                let k = choose|k: int| 0 <= k < p1.len() && p1[k] == x;
                assert(zipped.contains(zipped[perm[k]]));
            }
            if sorted.contains(x) {
                let a = choose|a: int| 0 <= a < zipped.len() && zipped[a] == x;
                assert(covers(perm, a));
                let k = choose|k: int| 0 <= k < perm.len() && perm[k] == a;
                assert(p1[k] == x);
            }
        }
        assert forall|x: (usize, Seq<char>), y: (usize, Seq<char>)|
            p1.contains(x) && p1.contains(y) && x != y implies #[trigger] lt0(x, y) || #[trigger] lt0(y, x) by {
            assert(sorted.contains(x) && sorted.contains(y));
        }
        lemma_increasing_unique(p1, sorted, lt0);
        assert forall|k: int| 0 <= k < o1.len() implies o1[k] == originals[k] by {
            assert(o1[k] == ps[perm[k]]);
            assert(p1[k] == sorted[k]);
        }
        assert(o1 =~= originals);
    }
    // the same path texts, each rebuilt path coming from the pair of its own
    // position
    let ordr = r.order_seq();
    assert(r.key_seq().len() == n);
    assert forall|i: int| 0 <= i < n implies #[trigger] zipped[i] == sorted[ordr[i] as int] by {
        let k = ordr[i] as int;
        assert(sorted.contains(sorted[k]));
        let a = choose|a: int| 0 <= a < zipped.len() && zipped[a] == sorted[k];
        assert(r.path_seq()[i] == originals[k]);
        assert(originals[k] == ps[a]);
        assert(r.key_seq()[i] == l.key_seq()[i]);
        if a < i {
            assert(path_lt(ps[a], ps[i]));
        } else if a > i {
            assert(path_lt(ps[i], ps[a]));
        }
    }
    assert forall|i: int| 0 <= i < n implies r.path_seq()[i] == ps[i] by {
        let k = ordr[i] as int;
        assert(zipped[i] == sorted[k]);
        assert(r.path_seq()[i] == originals[k]);
    }
    assert(r.path_seq() =~= ps);
    // with indices 0..n, the pair of index k sits at position k
    if forall|i: int| 0 <= i < ord.len() ==> #[trigger] ord[i] < ord.len() {
        let q = Seq::new(sorted.len(), |k: int| sorted[k].0 as int);
        assert forall|k: int| 0 <= k < q.len() implies 0 <= #[trigger] q[k] < q.len() by {
            assert(sorted.contains(sorted[k]));
            let a = choose|a: int| 0 <= a < zipped.len() && zipped[a] == sorted[k];
            assert(ord[a] < ord.len());
        }
        assert forall|i: int, j: int| 0 <= i < j < q.len() implies #[trigger] q[i] < #[trigger] q[j] by {
            assert(lt0(sorted[i], sorted[j]));
        }
        lemma_tight_increasing(q);
        assert forall|i: int| 0 <= i < n implies ordr[i] == ord[i] by {
            let k = ordr[i] as int;
            assert(zipped[i] == sorted[k]);
            assert(q[k] == k);
        }
        assert(ordr =~= ord);
    }
}

/// A list whose order indices are `0, 1, ...` (`is_lexicographically_ordered`)
/// displays its paths in lexicographic order: `ordered_paths` gives
/// `paths`.
pub proof fn lemma_lexicographic_display(l: PathList, ordered: Seq<Seq<char>>)
    requires
        l.wf(),
        in_display_order(ordered, l.path_seq(), l.order_seq()),
        forall|i: int| 0 <= i < l.order_seq().len() ==> #[trigger] l.order_seq()[i] == i,
    ensures
        ordered == l.path_seq(),
{
    let ps = l.path_seq();
    let ord = l.order_seq();
    let perm = choose|perm: Seq<int>|
        {
            &&& #[trigger] reorders(ordered, ps, perm)
            &&& forall|k1: int, k2: int|
                0 <= k1 < k2 < perm.len() ==> ord[#[trigger] perm[k1]] < ord[#[trigger] perm[k2]]
        };
    assert(reorders(ordered, ps, perm));
    assert forall|i: int, j: int| 0 <= i < j < perm.len() implies #[trigger] perm[i] < #[trigger] perm[j] by {
        assert(ord[perm[i]] < ord[perm[j]]);
    }
    assert forall|k: int| 0 <= k < perm.len() implies 0 <= #[trigger] perm[k] < perm.len() by {}
    lemma_tight_increasing(perm);
    assert forall|k: int| 0 <= k < ordered.len() implies ordered[k] == ps[k] by {
        assert(perm[k] == k);
    }
    assert(ordered =~= ps);
}

/// For a list built from inputs that name different paths, three things
/// go together: its order indices are `0, 1, ...`
/// (`is_lexicographically_ordered`), the inputs were given in sorted
/// order, and its display order is its sorted order.
pub proof fn lemma_lexicographic_iff_sorted(
    l: PathList,
    inputs: Seq<Seq<char>>,
    ordered: Seq<Seq<char>>,
)
    requires
        l.built_from(inputs),
        forall|i: int, j: int|
            0 <= i < j < inputs.len() ==> !same_path(#[trigger] inputs[i], #[trigger] inputs[j]),
        in_display_order(ordered, l.path_seq(), l.order_seq()),
    ensures
        (forall|i: int| 0 <= i < l.order_seq().len() ==> #[trigger] l.order_seq()[i] == i) <==> (
        forall|i: int, j: int|
            0 <= i < j < inputs.len() ==> path_lt(#[trigger] inputs[i], #[trigger] inputs[j])),
        (forall|i: int| 0 <= i < l.order_seq().len() ==> #[trigger] l.order_seq()[i] == i) <==> ordered
            == l.path_seq(),
{
    let ps = l.path_seq();
    let ord = l.order_seq();
    let m = inputs.len() as int;
    lemma_path_order();
    assert forall|k: int| 0 <= k < m implies is_first(inputs, k) by {
        assert forall|j: int| 0 <= j < k implies !same_path(#[trigger] inputs[j], inputs[k]) by {
            assert(!same_path(inputs[j], inputs[k]));
        }
    }
    let identity = forall|i: int| 0 <= i < ord.len() ==> #[trigger] ord[i] == i;
    let sorted_inputs = forall|i: int, j: int|
        0 <= i < j < m ==> path_lt(#[trigger] inputs[i], #[trigger] inputs[j]);
    // every input index is some position's order index
    assert forall|k: int| 0 <= k < m implies #[trigger] takes_value(ord, k) by {
        assert(is_first(inputs, k));
    }
    if identity {
        // then the paths are the inputs, in input order
        assert forall|k: int| 0 <= k < m implies k < ord.len() && #[trigger] ps[k] == inputs[k] by {
            assert(takes_value(ord, k));
            let j = choose|j: int| 0 <= j < ord.len() && ord[j] == k;
            assert(ord[j] == j);
        }
        assert forall|i: int, j: int| 0 <= i < j < m implies path_lt(
            #[trigger] inputs[i],
            #[trigger] inputs[j],
        ) by {
            assert(ps[i] == inputs[i] && ps[j] == inputs[j]);
        }
        lemma_lexicographic_display(l, ordered);
    }
    if sorted_inputs {
        // the order indices increase along the sorted paths
        assert forall|i: int, j: int| 0 <= i < j < ord.len() implies #[trigger] ord[i] < #[trigger] ord[j] by {
            assert(path_lt(ps[i], ps[j]));
            assert(ord[i] != ord[j]);
            if ord[j] < ord[i] {
                assert(path_lt(inputs[ord[j] as int], inputs[ord[i] as int]));
            }
        }
        lemma_covering_increasing(ord, m);
    }
    if ordered == ps {
        let perm = choose|perm: Seq<int>|
            {
                &&& #[trigger] reorders(ordered, ps, perm)
                &&& forall|k1: int, k2: int|
                    0 <= k1 < k2 < perm.len() ==> ord[#[trigger] perm[k1]] < ord[#[trigger] perm[k2]]
            };
        assert(reorders(ordered, ps, perm));
        assert forall|k: int| 0 <= k < perm.len() implies #[trigger] perm[k] == k by {
            assert(ps[perm[k]] == ps[k]);
            if perm[k] < k {
                assert(path_lt(ps[perm[k]], ps[k]));
            } else if perm[k] > k {
                assert(path_lt(ps[k], ps[perm[k]]));
            }
        }
        assert forall|i: int, j: int| 0 <= i < j < ord.len() implies #[trigger] ord[i] < #[trigger] ord[j] by {
            assert(perm[i] == i && perm[j] == j);
        }
        lemma_covering_increasing(ord, m);
    }
}

/// Some position of `ord` holds `k`.
pub open spec fn takes_value(ord: Seq<usize>, k: int) -> bool {
    exists|j: int| 0 <= j < ord.len() && ord[j] == k
}

/// Increasing indices below `m` that take every value below `m` are
/// `0, 1, ...`.
proof fn lemma_covering_increasing(ord: Seq<usize>, m: int)
    requires
        forall|i: int, j: int| 0 <= i < j < ord.len() ==> #[trigger] ord[i] < #[trigger] ord[j],
        forall|i: int| 0 <= i < ord.len() ==> #[trigger] ord[i] < m,
        forall|k: int| 0 <= k < m ==> #[trigger] takes_value(ord, k),
    ensures
        forall|i: int| 0 <= i < ord.len() ==> #[trigger] ord[i] == i,
{
    assert forall|i: int| 0 <= i < ord.len() implies #[trigger] ord[i] == i by {
        lemma_covering_at(ord, m, i);
    }
}

proof fn lemma_covering_at(ord: Seq<usize>, m: int, i: int)
    requires
        0 <= i < ord.len(),
        forall|a: int, b: int| 0 <= a < b < ord.len() ==> #[trigger] ord[a] < #[trigger] ord[b],
        forall|a: int| 0 <= a < ord.len() ==> #[trigger] ord[a] < m,
        forall|k: int| 0 <= k < m ==> #[trigger] takes_value(ord, k),
    ensures
        ord[i] == i,
    decreases i,
{
    if i > 0 {
        lemma_covering_at(ord, m, i - 1);
        assert(ord[i - 1] < ord[i]);
    }
    assert(ord[i] >= i);
    assert(ord[i] < m);
    assert(takes_value(ord, i));
    let j = choose|j: int| 0 <= j < ord.len() && ord[j] == i;
    if j < i {
        if j < i - 1 {
            assert(ord[j] < ord[i - 1]);
        }
        lemma_covering_at(ord, m, i - 1);
        assert(false);
    } else if j > i {
        assert(ord[i] < ord[j]);
    }
}

/// A strictly increasing run of `n` numbers, all in `0..n`, is `0, 1, ..., n - 1`.
proof fn lemma_tight_increasing(q: Seq<int>)
    requires
        forall|i: int, j: int| 0 <= i < j < q.len() ==> #[trigger] q[i] < #[trigger] q[j],
        forall|k: int| 0 <= k < q.len() ==> 0 <= #[trigger] q[k] < q.len(),
    ensures
        forall|k: int| 0 <= k < q.len() ==> #[trigger] q[k] == k,
{
    assert forall|k: int| 0 <= k < q.len() implies #[trigger] q[k] == k by {
        lemma_increasing_at_least(q, k);
        lemma_increasing_at_most(q, k);
    }
}

proof fn lemma_increasing_at_least(q: Seq<int>, k: int)
    requires
        0 <= k < q.len(),
        forall|i: int, j: int| 0 <= i < j < q.len() ==> #[trigger] q[i] < #[trigger] q[j],
        forall|m: int| 0 <= m < q.len() ==> 0 <= #[trigger] q[m] < q.len(),
    ensures
        q[k] >= k,
    decreases k,
{
    if k > 0 {
        lemma_increasing_at_least(q, k - 1);
        assert(q[k - 1] < q[k]);
    }
}

proof fn lemma_increasing_at_most(q: Seq<int>, k: int)
    requires
        0 <= k < q.len(),
        forall|i: int, j: int| 0 <= i < j < q.len() ==> #[trigger] q[i] < #[trigger] q[j],
        forall|m: int| 0 <= m < q.len() ==> 0 <= #[trigger] q[m] < q.len(),
    ensures
        q[k] <= k,
    decreases q.len() - k,
{
    if k + 1 < q.len() {
        lemma_increasing_at_most(q, k + 1);
        assert(q[k] < q[k + 1]);
    }
}

} // verus!
