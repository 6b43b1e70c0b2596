//! Regions of the country, and how the search form lists them: the top-level
//! regions in the order they were read, and the regions below them grouped
//! under the name of their parent, groups and members sorted by name.
use vstd::prelude::*;
use crate::text::{str_lt, str_less, lemma_str_lt_strict_total_order};

verus! {

/// A region; a top-level region has no parent.
#[derive(Clone, Debug, PartialEq, Eq)]
pub struct Region {
    pub id: i32,
    pub name: String,
    pub parent_id: Option<i32>,
}

impl Region {
    /// A copy of the region, equal to it.
    pub fn copy(&self) -> (c: Region)
        ensures
            c == *self,
    {
        Region { id: self.id, name: self.name.clone(), parent_id: self.parent_id }
    }
}

/// Holds of the regions that have no parent.
pub open spec fn is_top_level() -> spec_fn(Region) -> bool {
    |r: Region| r.parent_id is None
}

/// The top-level regions of `rs`, in their order in `rs`.
pub open spec fn top_level(rs: Seq<Region>) -> Seq<Region> {
    rs.filter(is_top_level())
}

/// The name of the top-level region with id `pid`; where several have that
/// id, the last of them in `rs` counts.
pub open spec fn parent_name(rs: Seq<Region>, pid: i32) -> Option<Seq<char>>
    decreases rs.len(),
{
    if rs.len() == 0 {
        None
    } else if rs.last().parent_id is None && rs.last().id == pid {
        Some(rs.last().name@)
    } else {
        parent_name(rs.drop_last(), pid)
    }
}

/// The name of the group that region `r` is listed under: the name of its
/// parent; none for a top-level region.
pub open spec fn group_of(rs: Seq<Region>, r: Region) -> Option<Seq<char>> {
    match r.parent_id {
        Some(p) => parent_name(rs, p),
        None => None,
    }
}

/// Every region that has a parent names a top-level region of `rs`.
pub open spec fn parents_known(rs: Seq<Region>) -> bool {
    forall|i: int|
        0 <= i < rs.len() && (#[trigger] rs[i]).parent_id is Some ==> group_of(rs, rs[i]) is Some
}

/// Holds of the regions listed under the group named `g`.
pub open spec fn in_group(rs: Seq<Region>, g: Seq<char>) -> spec_fn(Region) -> bool {
    |r: Region| group_of(rs, r) == Some(g)
}

/// The regions of `rs` listed under the group named `g`, in their order in `rs`.
pub open spec fn group_members(rs: Seq<Region>, g: Seq<char>) -> Seq<Region> {
    rs.filter(in_group(rs, g))
}

/// Holds of the regions named `k`.
pub open spec fn name_is(k: Seq<char>) -> spec_fn(Region) -> bool {
    |r: Region| r.name@ == k
}

/// The regions of `s` named `k`, in their order in `s`.
pub open spec fn with_name(s: Seq<Region>, k: Seq<char>) -> Seq<Region> {
    s.filter(name_is(k))
}

/// The names of `s` never decrease.
pub open spec fn names_ascending(s: Seq<Region>) -> bool {
    forall|i: int, j: int| 0 <= i < j < s.len() ==> !str_lt(s[j].name@, s[i].name@)
}

/// `out` is `inp` sorted by name, where regions of equal name keep their
/// order in `inp`: `out` is sorted, and for each name the regions of that
/// name come in the same order in both.
pub open spec fn stable_sorted_by_name(out: Seq<Region>, inp: Seq<Region>) -> bool {
    &&& out.len() == inp.len()
    &&& names_ascending(out)
    &&& forall|k: Seq<char>| #[trigger] with_name(out, k) == with_name(inp, k)
}

/// A list of groups, each a name and the regions under it, by views.
pub open spec fn groups_view(gs: Seq<(String, Vec<Region>)>) -> Seq<(Seq<char>, Seq<Region>)> {
    gs.map_values(|g: (String, Vec<Region>)| (g.0@, g.1@))
}

/// `gs` lists the regions of `rs` that have a parent, grouped under the name
/// of the parent: group names strictly ascending, each group non-empty and
/// sorted by name as `stable_sorted_by_name` says, and every region with a
/// parent under some group.
pub open spec fn is_region_grouping(rs: Seq<Region>, gs: Seq<(Seq<char>, Seq<Region>)>) -> bool {
    &&& forall|a: int, b: int| 0 <= a < b < gs.len() ==> str_lt(gs[a].0, gs[b].0)
    &&& forall|a: int|
        0 <= a < gs.len() ==> (#[trigger] gs[a]).1.len() > 0 && stable_sorted_by_name(
            gs[a].1,
            group_members(rs, gs[a].0),
        )
    &&& forall|i: int|
        0 <= i < rs.len() && (#[trigger] rs[i]).parent_id is Some ==> exists|a: int|
            0 <= a < gs.len() && group_of(rs, rs[i]) == Some(#[trigger] gs[a].0)
}

/// The views of a sequence of names.
pub open spec fn names_view(s: Seq<String>) -> Seq<Seq<char>> {
    s.map_values(|n: String| n@)
}

/// The names of `s` strictly increase.
pub open spec fn strictly_ascending(s: Seq<Seq<char>>) -> bool {
    forall|a: int, b: int| 0 <= a < b < s.len() ==> str_lt(s[a], s[b])
}

/// An optional name, by view.
pub open spec fn name_view(o: Option<String>) -> Option<Seq<char>> {
    match o {
        Some(s) => Some(s@),
        None => None,
    }
}

proof fn lemma_parent_name_step(rs: Seq<Region>, i: int, pid: i32)
    requires
        0 <= i < rs.len(),
    ensures
        parent_name(rs.subrange(0, i + 1), pid) == if rs[i].parent_id is None && rs[i].id == pid {
            Some(rs[i].name@)
        } else {
            parent_name(rs.subrange(0, i), pid)
        },
{
    assert(rs.subrange(0, i + 1).drop_last() =~= rs.subrange(0, i));
}

/// The name of the top-level region with id `pid`, the last of them in
/// `regions` where several have it.
pub fn find_parent_name(regions: &Vec<Region>, pid: i32) -> (r: Option<String>)
    ensures
        name_view(r) == parent_name(regions@, pid),
{
    let ghost rs = regions@;
    let mut i: usize = regions.len();
    assert(rs.subrange(0, i as int) =~= rs);
    while i > 0
        invariant
            rs == regions@,
            i <= rs.len(),
            parent_name(rs, pid) == parent_name(rs.subrange(0, i as int), pid),
        decreases i,
    {
        i = i - 1;
        proof {
            lemma_parent_name_step(rs, i as int, pid);
        }
        if regions[i].parent_id.is_none() && regions[i].id == pid {
            return Some(regions[i].name.clone());
        }
    }
    None
}

proof fn lemma_with_name_insert(s: Seq<Region>, p: int, x: Region, k: Seq<char>)
    requires
        0 <= p <= s.len(),
        forall|q: int| p <= q < s.len() ==> s[q].name@ != x.name@,
    ensures
        with_name(s.insert(p, x), k) == if x.name@ == k {
            with_name(s, k).push(x)
        } else {
            with_name(s, k)
        },
{
    let pred = name_is(k);
    let a = s.subrange(0, p);
    let b = s.subrange(p, s.len() as int);
    assert(s =~= a + b);
    assert(s.insert(p, x) =~= a.push(x) + b);
    Seq::filter_distributes_over_add(a, b, pred);
    Seq::filter_distributes_over_add(a.push(x), b, pred);
    a.lemma_filter_push(x, pred);
    if x.name@ == k {
        assert(b.all(|r: Region| !pred(r)));
        b.lemma_all_neg_filter_empty(pred);
        assert(b.filter(pred) =~= Seq::<Region>::empty());
        assert(a.filter(pred) + b.filter(pred) =~= a.filter(pred));
        assert(a.filter(pred).push(x) + b.filter(pred) =~= a.filter(pred).push(x));
    }
}

/// The regions of `v` sorted by name, regions of equal name in their order
/// in `v` (a stable sort).
pub fn sort_by_name(v: &Vec<Region>) -> (out: Vec<Region>)
    ensures
        stable_sorted_by_name(out@, v@),
{
    let n = v.len();
    let mut out: Vec<Region> = Vec::new();
    let mut i: usize = 0;
    while i < n
        invariant
            n == v@.len(),
            i <= n,
            out@.len() == i,
            names_ascending(out@),
            forall|k: Seq<char>| #[trigger]
                with_name(out@, k) == with_name(v@.subrange(0, i as int), k),
        decreases n - i,
    {
        proof {
            lemma_str_lt_strict_total_order();
        }
        let x = v[i].copy();
        let len = out.len();
        let mut p: usize = 0;
        while p < len && !str_less(x.name.as_str(), out[p].name.as_str())
            invariant
                p <= len,
                len == out@.len(),
                forall|q: int| 0 <= q < p ==> !str_lt(x.name@, #[trigger] out@[q].name@),
            decreases len - p,
        {
            p = p + 1;
        }
        let ghost old_out = out@;
        proof {
            assert forall|q: int| p <= q < len implies str_lt(x.name@, #[trigger] old_out[q].name@) by {
                if q > p {
                    assert(!str_lt(old_out[q].name@, old_out[p as int].name@));
                    if old_out[q].name@ != old_out[p as int].name@ {
                        assert(str_lt(old_out[p as int].name@, old_out[q].name@));
                    }
                }
            }
        }
        out.insert(p, x);
        proof {
            old_out.insert_ensures(p as int, x);
            assert(out@ == old_out.insert(p as int, x));
            assert forall|a: int, b: int| 0 <= a < b < out@.len() implies !str_lt(
                out@[b].name@,
                out@[a].name@,
            ) by {
                if b < p {
                } else if b == p {
                    assert(out@[a] == old_out[a]);
                } else if a < p {
                    assert(out@[b] == old_out[b - 1]);
                    assert(out@[a] == old_out[a]);
                    assert(str_lt(x.name@, old_out[b - 1].name@));
                    assert(!str_lt(x.name@, old_out[a].name@));
                    if str_lt(old_out[b - 1].name@, old_out[a].name@) {
                        if old_out[a].name@ != x.name@ {
                            assert(str_lt(old_out[a].name@, x.name@));
                        }
                    }
                } else if a == p {
                    assert(out@[b] == old_out[b - 1]);
                    assert(str_lt(x.name@, old_out[b - 1].name@));
                } else {
                    assert(out@[b] == old_out[b - 1]);
                    assert(out@[a] == old_out[a - 1]);
                }
            }
            assert(v@.subrange(0, i + 1) =~= v@.subrange(0, i as int).push(v@[i as int]));
            assert forall|k: Seq<char>| #[trigger]
                with_name(out@, k) == with_name(v@.subrange(0, i + 1), k) by {
                assert forall|q: int| p <= q < old_out.len() implies old_out[q].name@
                    != x.name@ by {
                    assert(str_lt(x.name@, old_out[q].name@));
                }
                lemma_with_name_insert(old_out, p as int, x, k);
                v@.subrange(0, i as int).lemma_filter_push(v@[i as int], name_is(k));
            }
        }
        i = i + 1;
    }
    proof {
        assert(v@.subrange(0, n as int) =~= v@);
    }
    out
}

/// Adds `g` to the strictly ascending list `names`, where it is not there yet.
fn insert_name(names: &mut Vec<String>, g: &String)
    requires
        strictly_ascending(names_view(old(names)@)),
    ensures
        strictly_ascending(names_view(final(names)@)),
        forall|s: Seq<char>|
            names_view(final(names)@).contains(s) <==> names_view(old(names)@).contains(s) || s
                == g@,
{
    proof {
        lemma_str_lt_strict_total_order();
    }
    let ghost old_names = names_view(names@);
    let len = names.len();
    let mut p: usize = 0;
    while p < len && str_less(names[p].as_str(), g.as_str())
        invariant
            p <= len,
            len == names@.len(),
            old_names == names_view(names@),
            forall|q: int| 0 <= q < p ==> str_lt(#[trigger] old_names[q], g@),
        decreases len - p,
    {
        p = p + 1;
    }
    if p < len && names[p] == *g {
        assert(old_names[p as int] == g@);
        return;
    }
    proof {
        assert forall|q: int| p <= q < len implies str_lt(g@, #[trigger] old_names[q]) by {
            assert(old_names[p as int] != g@);
            assert(!str_lt(old_names[p as int], g@));
            assert(str_lt(g@, old_names[p as int]));
            if q > p {
                assert(str_lt(old_names[p as int], old_names[q]));
            }
        }
    }
    let ghost before = names@;
    let copy = g.clone();
    names.insert(p, copy);
    proof {
        before.insert_ensures(p as int, copy);
        assert(names_view(names@) =~= old_names.insert(p as int, g@));
        old_names.insert_ensures(p as int, g@);
        let nv = names_view(names@);
        assert forall|a: int, b: int| 0 <= a < b < nv.len() implies str_lt(nv[a], nv[b]) by {
            if b < p {
            } else if b == p {
            } else if a < p {
                assert(str_lt(old_names[a], g@));
                assert(str_lt(g@, old_names[b - 1]));
            } else if a == p {
            } else {
            }
        }
        assert forall|s: Seq<char>| nv.contains(s) <==> old_names.contains(s) || s == g@ by {
            if nv.contains(s) {
                let j = choose|j: int| 0 <= j < nv.len() && nv[j] == s;
                if j < p {
                    assert(old_names[j] == s);
                } else if j > p {
                    assert(old_names[j - 1] == s);
                }
            }
            if old_names.contains(s) {
                let j = choose|j: int| 0 <= j < old_names.len() && old_names[j] == s;
                if j < p {
                    assert(nv[j] == s);
                } else {
                    assert(nv[j + 1] == s);
                }
            }
            if s == g@ {
                assert(nv[p as int] == s);
            }
        }
    }
}

/// Splits `regions` for the search form: the top-level regions in their
/// order in `regions`, and the other regions grouped under the name of their
/// parent, groups sorted by name and each group sorted by name, regions of
/// equal name in their order in `regions`. Where several top-level regions
/// share an id, the last of them names the group; groups whose parents share
/// a name are one group.
pub fn group_and_sort_regions(regions: Vec<Region>) -> (result: (
    Vec<Region>,
    Vec<(String, Vec<Region>)>,
))
    requires
        parents_known(regions@),
    ensures
        result.0@ == top_level(regions@),
        is_region_grouping(regions@, groups_view(result.1@)),
{
    let ghost rs = regions@;
    let n = regions.len();

    let mut parents: Vec<Region> = Vec::new();
    let mut i: usize = 0;
    while i < n
        invariant
            rs == regions@,
            n == rs.len(),
            i <= n,
            parents@ == rs.subrange(0, i as int).filter(is_top_level()),
        decreases n - i,
    {
        proof {
            assert(rs.subrange(0, i + 1) =~= rs.subrange(0, i as int).push(rs[i as int]));
            rs.subrange(0, i as int).lemma_filter_push(rs[i as int], is_top_level());
        }
        if regions[i].parent_id.is_none() {
            parents.push(regions[i].copy());
        }
        i = i + 1;
    }
    assert(rs.subrange(0, n as int) =~= rs);

    // the group that each region is listed under
    let mut group_of_region: Vec<Option<String>> = Vec::new();
    let mut i: usize = 0;
    while i < n
        invariant
            rs == regions@,
            n == rs.len(),
            i <= n,
            group_of_region@.len() == i,
            forall|j: int| 0 <= j < i ==> name_view(#[trigger] group_of_region@[j]) == group_of(rs, rs[j]),
        decreases n - i,
    {
        let g = match regions[i].parent_id {
            Some(p) => find_parent_name(&regions, p),
            None => None,
        };
        group_of_region.push(g);
        i = i + 1;
    }

    // the distinct group names, ascending
    let mut names: Vec<String> = Vec::new();
    let mut i: usize = 0;
    while i < n
        invariant
            rs == regions@,
            n == rs.len(),
            i <= n,
            group_of_region@.len() == n,
            forall|j: int| 0 <= j < n ==> name_view(#[trigger] group_of_region@[j]) == group_of(rs, rs[j]),
            strictly_ascending(names_view(names@)),
            forall|j: int| 0 <= j < i ==> (#[trigger] group_of(rs, rs[j]) matches Some(g) ==> names_view(names@).contains(g)),
            forall|s: Seq<char>| #[trigger] names_view(names@).contains(s) ==> exists|j: int| 0 <= j < n && group_of(rs, #[trigger] rs[j]) == Some(s),
        decreases n - i,
    {
        match &group_of_region[i] {
            Some(g) => {
                insert_name(&mut names, g);
                proof {
                    assert(group_of(rs, rs[i as int]) == Some(g@));
                }
            },
            None => {},
        }
        i = i + 1;
    }

    // the members of each group, sorted by name
    let m = names.len();
    let mut groups: Vec<(String, Vec<Region>)> = Vec::new();
    let mut a: usize = 0;
    while a < m
        invariant
            rs == regions@,
            n == rs.len(),
            group_of_region@.len() == n,
            forall|j: int| 0 <= j < n ==> name_view(#[trigger] group_of_region@[j]) == group_of(rs, rs[j]),
            forall|s: Seq<char>| #[trigger] names_view(names@).contains(s) ==> exists|j: int| 0 <= j < n && group_of(rs, #[trigger] rs[j]) == Some(s),
            m == names@.len(),
            a <= m,
            groups@.len() == a,
            forall|b: int| 0 <= b < a ==> {
                &&& (#[trigger] groups@[b]).0@ == names@[b]@
                &&& groups@[b].1@.len() > 0
                &&& stable_sorted_by_name(groups@[b].1@, group_members(rs, names@[b]@))
            },
        decreases m - a,
    {
        let g = &names[a];
        let mut members: Vec<Region> = Vec::new();
        let mut j: usize = 0;
        while j < n
            invariant
                rs == regions@,
                n == rs.len(),
                group_of_region@.len() == n,
                forall|j: int| 0 <= j < n ==> name_view(#[trigger] group_of_region@[j]) == group_of(rs, rs[j]),
                j <= n,
                members@ == rs.subrange(0, j as int).filter(in_group(rs, g@)),
            decreases n - j,
        {
            proof {
                assert(rs.subrange(0, j + 1) =~= rs.subrange(0, j as int).push(rs[j as int]));
                rs.subrange(0, j as int).lemma_filter_push(rs[j as int], in_group(rs, g@));
                assert(name_view(group_of_region@[j as int]) == group_of(rs, rs[j as int]));
            }
            match &group_of_region[j] {
                Some(h) => {
                    if *h == *g {
                        members.push(regions[j].copy());
                    }
                },
                None => {},
            }
            j = j + 1;
        }
        proof {
            assert(rs.subrange(0, n as int) =~= rs);
            assert(names_view(names@)[a as int] == g@);
            assert(names_view(names@).contains(g@));
            let w = choose|w: int| 0 <= w < n && group_of(rs, #[trigger] rs[w]) == Some(g@);
            rs.lemma_filter_contains(in_group(rs, g@), w);
        }
        let sorted = sort_by_name(&members);
        groups.push((g.clone(), sorted));
        a = a + 1;
    }
    proof {
        let gv = groups_view(groups@);
        let nv = names_view(names@);
        assert forall|a: int, b: int| 0 <= a < b < gv.len() implies str_lt(gv[a].0, gv[b].0) by {
            assert(gv[a].0 == nv[a]);
            assert(gv[b].0 == nv[b]);
        }
        assert forall|a: int| 0 <= a < gv.len() implies (#[trigger] gv[a]).1.len() > 0
            && stable_sorted_by_name(gv[a].1, group_members(rs, gv[a].0)) by {
            assert(gv[a] == (groups@[a].0@, groups@[a].1@));
        }
        assert forall|i: int| 0 <= i < rs.len() && (#[trigger] rs[i]).parent_id is Some implies exists|a: int|
            0 <= a < gv.len() && group_of(rs, rs[i]) == Some(#[trigger] gv[a].0) by {
            let g = group_of(rs, rs[i])->0;
            assert(nv.contains(g));
            let a = choose|a: int| 0 <= a < nv.len() && nv[a] == g;
            assert(gv[a] == (groups@[a].0@, groups@[a].1@));
            assert(gv[a].0 == g);
        }
    }
    (parents, groups)
}

/// Whether every region of `regions` that has a parent names a top-level
/// region there, as `group_and_sort_regions` needs.
pub fn all_parents_known(regions: &Vec<Region>) -> (r: bool)
    ensures
        r == parents_known(regions@),
{
    let n = regions.len();
    let mut i: usize = 0;
    while i < n
        invariant
            n == regions@.len(),
            i <= n,
            forall|j: int| 0 <= j < i && (#[trigger] regions@[j]).parent_id is Some ==> group_of(regions@, regions@[j]) is Some,
        decreases n - i,
    {
        match regions[i].parent_id {
            Some(p) => {
                let found = find_parent_name(regions, p);
                if found.is_none() {
                    assert(group_of(regions@, regions@[i as int]) is None);
                    return false;
                }
            },
            None => {},
        }
        i = i + 1;
    }
    true
}

/// Where a region of `rs` stands in a grouping of `rs`: a region is in a
/// group exactly when it is a region of `rs` listed under that group's name,
/// each group has as many regions as `rs` lists under its name, and no two
/// groups share a name.
pub proof fn lemma_grouping_places_each_region(rs: Seq<Region>, gs: Seq<(Seq<char>, Seq<Region>)>)
    requires
        is_region_grouping(rs, gs),
    ensures
        forall|a: int, x: Region| 0 <= a < gs.len() ==> (#[trigger] gs[a].1.contains(x) <==> (rs.contains(x) && group_of(rs, x) == Some(gs[a].0))),
        forall|a: int| 0 <= a < gs.len() ==> (#[trigger] gs[a]).1.len() == group_members(rs, gs[a].0).len(),
        forall|a: int, b: int| 0 <= a < gs.len() && 0 <= b < gs.len() && a != b ==> gs[a].0 != gs[b].0,
{
    lemma_str_lt_strict_total_order();
    assert forall|a: int, x: Region| 0 <= a < gs.len() implies (#[trigger] gs[a].1.contains(x) <==> (rs.contains(x) && group_of(rs, x) == Some(gs[a].0))) by {
        let g = gs[a].0;
        let out = gs[a].1;
        let members = group_members(rs, g);
        assert(stable_sorted_by_name(out, members));
        let k = x.name@;
        assert(with_name(out, k) == with_name(members, k));
        if out.contains(x) {
            let i = choose|i: int| 0 <= i < out.len() && out[i] == x;
            out.lemma_filter_contains(name_is(k), i);
            assert(with_name(members, k).contains(x));
            members.lemma_filter_contains_rev(name_is(k), x);
            rs.lemma_filter_contains_rev(in_group(rs, g), x);
        }
        if rs.contains(x) && group_of(rs, x) == Some(g) {
            let i = choose|i: int| 0 <= i < rs.len() && rs[i] == x;
            rs.lemma_filter_contains(in_group(rs, g), i);
            let m = choose|m: int| 0 <= m < members.len() && members[m] == x;
            members.lemma_filter_contains(name_is(k), m);
            out.lemma_filter_contains_rev(name_is(k), x);
        }
    }
    assert forall|a: int, b: int| 0 <= a < gs.len() && 0 <= b < gs.len() && a != b implies gs[a].0 != gs[b].0 by {
        if a < b {
            assert(str_lt(gs[a].0, gs[b].0));
        } else {
            assert(str_lt(gs[b].0, gs[a].0));
        }
    }
}

proof fn lemma_with_name_push(s: Seq<Region>, x: Region, k: Seq<char>)
    ensures
        with_name(s.push(x), k) == if x.name@ == k {
            with_name(s, k).push(x)
        } else {
            with_name(s, k)
        },
{
    s.lemma_filter_push(x, name_is(k));
}

proof fn lemma_has_name(s: Seq<Region>, k: Seq<char>) -> (j: int)
    requires
        with_name(s, k).len() > 0,
    ensures
        0 <= j < s.len(),
        s[j].name@ == k,
{
    let w = with_name(s, k)[0];
    s.lemma_filter_pred(name_is(k), 0);
    assert(with_name(s, k).contains(w));
    s.lemma_filter_contains_rev(name_is(k), w);
    choose|j: int| 0 <= j < s.len() && s[j] == w
}

/// Two sequences of regions sorted by name that hold, for each name, the
/// same regions of that name in the same order, are equal.
pub proof fn lemma_sorted_by_name_unique(s: Seq<Region>, t: Seq<Region>)
    requires
        names_ascending(s),
        names_ascending(t),
        forall|k: Seq<char>| #[trigger] with_name(s, k) == with_name(t, k),
    ensures
        s == t,
    decreases s.len() + t.len(),
{
    lemma_str_lt_strict_total_order();
    if s.len() == 0 || t.len() == 0 {
        if t.len() > 0 {
            let k = t[0].name@;
            t.lemma_filter_contains(name_is(k), 0);
            s.lemma_filter_len(name_is(k));
            assert(with_name(s, k) == with_name(t, k));
            assert(with_name(t, k).len() > 0);
        }
        if s.len() > 0 {
            let k = s[0].name@;
            s.lemma_filter_contains(name_is(k), 0);
            t.lemma_filter_len(name_is(k));
            assert(with_name(s, k) == with_name(t, k));
            assert(with_name(s, k).len() > 0);
        }
        assert(s =~= t);
    } else {
        let s1 = s.drop_last();
        let t1 = t.drop_last();
        let ks = s.last().name@;
        let kt = t.last().name@;
        assert(s1.push(s.last()) =~= s);
        assert(t1.push(t.last()) =~= t);
        lemma_with_name_push(s1, s.last(), ks);
        lemma_with_name_push(t1, t.last(), kt);
        if ks != kt {
            assert(with_name(t, ks).len() > 0);
            let j = lemma_has_name(t, ks);
            assert(j < t.len() - 1);
            assert(!str_lt(kt, ks));
            assert(with_name(s, kt).len() > 0);
            let i = lemma_has_name(s, kt);
            assert(i < s.len() - 1);
            assert(!str_lt(ks, kt));
        }
        lemma_with_name_push(t1, t.last(), ks);
        assert(with_name(s, ks).last() == s.last());
        assert(with_name(t, ks).last() == t.last());
        assert(s.last() == t.last());
        assert forall|k: Seq<char>| #[trigger] with_name(s1, k) == with_name(t1, k) by {
            lemma_with_name_push(s1, s.last(), k);
            lemma_with_name_push(t1, t.last(), k);
            if k == ks {
                assert(with_name(s1, k) == with_name(s, k).drop_last());
                assert(with_name(t1, k) == with_name(t, k).drop_last());
            } else {
                assert(with_name(s1, k) == with_name(s, k));
            }
        }
        lemma_sorted_by_name_unique(s1, t1);
    }
}

/// Two strictly ascending sequences of names that hold the same names are
/// equal.
pub proof fn lemma_ascending_names_unique(s: Seq<Seq<char>>, t: Seq<Seq<char>>)
    requires
        strictly_ascending(s),
        strictly_ascending(t),
        forall|x: Seq<char>| s.contains(x) <==> t.contains(x),
    ensures
        s == t,
    decreases s.len() + t.len(),
{
    lemma_str_lt_strict_total_order();
    if s.len() == 0 || t.len() == 0 {
        if t.len() > 0 {
            assert(t.contains(t[0]));
        }
        if s.len() > 0 {
            assert(s.contains(s[0]));
        }
        assert(s =~= t);
    } else {
        let s1 = s.drop_last();
        let t1 = t.drop_last();
        let ls = s.last();
        let lt = t.last();
        assert(s.contains(ls));
        assert(t.contains(lt));
        let j = choose|j: int| 0 <= j < t.len() && t[j] == ls;
        let i = choose|i: int| 0 <= i < s.len() && s[i] == lt;
        if ls != lt {
            assert(j < t.len() - 1);
            assert(str_lt(ls, lt));
            assert(i < s.len() - 1);
            assert(str_lt(lt, ls));
        }
        assert forall|x: Seq<char>| s1.contains(x) <==> t1.contains(x) by {
            if s1.contains(x) {
                let a = choose|a: int| 0 <= a < s1.len() && s1[a] == x;
                assert(str_lt(x, ls));
                assert(s.contains(x));
                let b = choose|b: int| 0 <= b < t.len() && t[b] == x;
                if b == t.len() - 1 {
                    assert(x == lt);
                }
                assert(t1[b] == x);
            }
            if t1.contains(x) {
                let b = choose|b: int| 0 <= b < t1.len() && t1[b] == x;
                assert(str_lt(x, lt));
                assert(t.contains(x));
                let a = choose|a: int| 0 <= a < s.len() && s[a] == x;
                if a == s.len() - 1 {
                    assert(x == ls);
                }
                assert(s1[a] == x);
            }
        }
        lemma_ascending_names_unique(s1, t1);
        assert(s =~= s1.push(ls));
        assert(t =~= t1.push(lt));
    }
}

/// The grouping of the regions is determined by the regions: two groupings
/// of the same regions, as `is_region_grouping` describes them, are equal.
/// So `group_and_sort_regions` has one possible result for each input.
pub proof fn lemma_grouping_unique(
    rs: Seq<Region>,
    g1: Seq<(Seq<char>, Seq<Region>)>,
    g2: Seq<(Seq<char>, Seq<Region>)>,
)
    requires
        is_region_grouping(rs, g1),
        is_region_grouping(rs, g2),
    ensures
        g1 == g2,
{
    let n1 = g1.map_values(|g: (Seq<char>, Seq<Region>)| g.0);
    let n2 = g2.map_values(|g: (Seq<char>, Seq<Region>)| g.0);
    lemma_grouping_places_each_region(rs, g1);
    lemma_grouping_places_each_region(rs, g2);
    assert forall|x: Seq<char>| n1.contains(x) <==> n2.contains(x) by {
        if n1.contains(x) {
            let a = choose|a: int| 0 <= a < n1.len() && n1[a] == x;
            assert(g1[a].1.contains(g1[a].1[0]));
            let r = g1[a].1[0];
            assert(rs.contains(r) && group_of(rs, r) == Some(x));
            let i = choose|i: int| 0 <= i < rs.len() && rs[i] == r;
            assert(rs[i].parent_id is Some);
            let b = choose|b: int| 0 <= b < g2.len() && group_of(rs, rs[i]) == Some(#[trigger] g2[b].0);
            assert(n2[b] == x);
        }
        if n2.contains(x) {
            let a = choose|a: int| 0 <= a < n2.len() && n2[a] == x;
            assert(g2[a].1.contains(g2[a].1[0]));
            let r = g2[a].1[0];
            assert(rs.contains(r) && group_of(rs, r) == Some(x));
            let i = choose|i: int| 0 <= i < rs.len() && rs[i] == r;
            assert(rs[i].parent_id is Some);
            let b = choose|b: int| 0 <= b < g1.len() && group_of(rs, rs[i]) == Some(#[trigger] g1[b].0);
            assert(n1[b] == x);
        }
    }
    assert(strictly_ascending(n1)) by {
        assert forall|a: int, b: int| 0 <= a < b < n1.len() implies str_lt(n1[a], n1[b]) by {
            assert(n1[a] == g1[a].0 && n1[b] == g1[b].0);
        }
    }
    assert(strictly_ascending(n2)) by {
        assert forall|a: int, b: int| 0 <= a < b < n2.len() implies str_lt(n2[a], n2[b]) by {
            assert(n2[a] == g2[a].0 && n2[b] == g2[b].0);
        }
    }
    lemma_ascending_names_unique(n1, n2);
    assert forall|a: int| 0 <= a < g1.len() implies g1[a] == g2[a] by {
        assert(n1[a] == g1[a].0);
        assert(n2[a] == g2[a].0);
        assert(stable_sorted_by_name(g1[a].1, group_members(rs, g1[a].0)));
        assert(stable_sorted_by_name(g2[a].1, group_members(rs, g2[a].0)));
        lemma_sorted_by_name_unique(g1[a].1, g2[a].1);
    }
    assert(g1 =~= g2);
}

/// Top-level regions that share an id that some region names as its parent
/// share a name.
pub open spec fn parent_ids_unambiguous(rs: Seq<Region>) -> bool {
    forall|i: int, j: int, k: int|
        0 <= i < rs.len() && 0 <= j < rs.len() && 0 <= k < rs.len() && (#[trigger] rs[i]).parent_id
            is None && (#[trigger] rs[j]).parent_id is None && rs[i].id == rs[j].id && (
        #[trigger] rs[k]).parent_id == Some(rs[i].id) ==> rs[i].name@ == rs[j].name@
}

/// Two regions of one group that share a name are the same region.
pub open spec fn names_distinct_in_groups(rs: Seq<Region>) -> bool {
    forall|i: int, j: int|
        0 <= i < rs.len() && 0 <= j < rs.len() && group_of(rs, #[trigger] rs[i]) is Some
            && group_of(rs, rs[i]) == group_of(rs, #[trigger] rs[j]) && rs[i].name@ == rs[j].name@
            ==> rs[i] == rs[j]
}

proof fn lemma_parent_name_witness(rs: Seq<Region>, pid: i32)
    ensures
        parent_name(rs, pid) matches Some(n) ==> exists|i: int|
            0 <= i < rs.len() && (#[trigger] rs[i]).parent_id is None && rs[i].id == pid
                && rs[i].name@ == n,
        parent_name(rs, pid) is None ==> forall|i: int|
            0 <= i < rs.len() && (#[trigger] rs[i]).parent_id is None ==> rs[i].id != pid,
    decreases rs.len(),
{
    if rs.len() > 0 {
        let t = rs.drop_last();
        lemma_parent_name_witness(t, pid);
        if parent_name(rs, pid) is Some && !(rs.last().parent_id is None && rs.last().id == pid) {
            let i = choose|i: int|
                0 <= i < t.len() && (#[trigger] t[i]).parent_id is None && t[i].id == pid && t[i].name@
                    == parent_name(rs, pid)->0;
            assert(rs[i] == t[i]);
        }
        if parent_name(rs, pid) is None {
            assert forall|i: int| 0 <= i < rs.len() && (#[trigger] rs[i]).parent_id is None implies rs[i].id != pid by {
                if i < rs.len() - 1 {
                    assert(rs[i] == t[i]);
                }
            }
        }
    }
}

proof fn lemma_same_parent_names(rs: Seq<Region>, ps: Seq<Region>, x: Region)
    requires
        rs.to_multiset() == ps.to_multiset(),
        parent_ids_unambiguous(rs),
        rs.contains(x),
        x.parent_id is Some,
    ensures
        parent_name(rs, x.parent_id->0) == parent_name(ps, x.parent_id->0),
{
    let pid = x.parent_id->0;
    let kx = choose|kx: int| 0 <= kx < rs.len() && rs[kx] == x;
    broadcast use vstd::seq_lib::group_to_multiset_ensures;
    lemma_parent_name_witness(rs, pid);
    lemma_parent_name_witness(ps, pid);
    if parent_name(ps, pid) is Some {
        let n = parent_name(ps, pid)->0;
        let j = choose|j: int| 0 <= j < ps.len() && (#[trigger] ps[j]).parent_id is None && ps[j].id == pid && ps[j].name@ == n;
        rs.to_multiset_ensures();
        ps.to_multiset_ensures();
        assert(ps.contains(ps[j]));
        assert(ps.to_multiset().count(ps[j]) > 0);
        assert(rs.to_multiset().count(ps[j]) > 0);
        assert(rs.contains(ps[j]));
        let i = choose|i: int| 0 <= i < rs.len() && rs[i] == ps[j];
        assert(rs[i].parent_id is None);
        if parent_name(rs, pid) is Some {
            let m = parent_name(rs, pid)->0;
            let k = choose|k: int| 0 <= k < rs.len() && (#[trigger] rs[k]).parent_id is None && rs[k].id == pid && rs[k].name@ == m;
            assert(rs[kx].parent_id == Some(rs[k].id));
            assert(rs[k].name@ == rs[i].name@);
        }
    } else if parent_name(rs, pid) is Some {
        let n = parent_name(rs, pid)->0;
        let i = choose|i: int| 0 <= i < rs.len() && (#[trigger] rs[i]).parent_id is None && rs[i].id == pid && rs[i].name@ == n;
        rs.to_multiset_ensures();
        ps.to_multiset_ensures();
        assert(rs.contains(rs[i]));
        assert(rs.to_multiset().count(rs[i]) > 0);
        assert(ps.to_multiset().count(rs[i]) > 0);
        assert(ps.contains(rs[i]));
        let j = choose|j: int| 0 <= j < ps.len() && ps[j] == rs[i];
        assert(ps[j].parent_id is None);
    }
}

proof fn lemma_filter_agree(s: Seq<Region>, p: spec_fn(Region) -> bool, q: spec_fn(Region) -> bool)
    requires
        forall|i: int| 0 <= i < s.len() ==> p(#[trigger] s[i]) == q(s[i]),
    ensures
        s.filter(p) == s.filter(q),
    decreases s.len(),
{
    reveal(Seq::filter);
    if s.len() > 0 {
        let t = s.drop_last();
        assert forall|i: int| 0 <= i < t.len() implies p(#[trigger] t[i]) == q(t[i]) by {
            assert(t[i] == s[i]);
        }
        lemma_filter_agree(t, p, q);
        assert(p(s[s.len() - 1]) == q(s[s.len() - 1]));
    }
}

proof fn lemma_filter_to_multiset(s: Seq<Region>, p: spec_fn(Region) -> bool)
    ensures
        s.filter(p).to_multiset() =~= s.to_multiset().filter(p),
    decreases s.len(),
{
    broadcast use vstd::seq_lib::group_to_multiset_ensures;
    broadcast use vstd::multiset::group_multiset_axioms;
    if s.len() == 0 {
        reveal(Seq::filter);
        assert(s.filter(p) =~= Seq::<Region>::empty());
    } else {
        let t = s.drop_last();
        lemma_filter_to_multiset(t, p);
        assert(t.push(s.last()) =~= s);
        t.lemma_filter_push(s.last(), p);
    }
}

proof fn lemma_all_equal_by_multiset(a: Seq<Region>, b: Seq<Region>, e: Region)
    requires
        a.to_multiset() == b.to_multiset(),
        forall|i: int| 0 <= i < a.len() ==> a[i] == e,
        forall|i: int| 0 <= i < b.len() ==> b[i] == e,
    ensures
        a == b,
{
    broadcast use vstd::seq_lib::group_to_multiset_ensures;
    a.to_multiset_ensures();
    b.to_multiset_ensures();
    assert(a.len() == a.to_multiset().len());
    assert(a.len() == b.len());
    assert(a =~= b);
}

/// The grouping of the regions does not depend on the order in which they
/// are read: a grouping of `rs` and one of a reordering `ps` of `rs` are
/// equal, where top-level regions that share an id share a name and no two
/// regions of a group share a name.
pub proof fn lemma_grouping_ignores_order(
    rs: Seq<Region>,
    ps: Seq<Region>,
    g1: Seq<(Seq<char>, Seq<Region>)>,
    g2: Seq<(Seq<char>, Seq<Region>)>,
)
    requires
        rs.to_multiset() == ps.to_multiset(),
        parent_ids_unambiguous(rs),
        names_distinct_in_groups(rs),
        is_region_grouping(rs, g1),
        is_region_grouping(ps, g2),
    ensures
        g1 == g2,
{
    broadcast use vstd::seq_lib::group_to_multiset_ensures;
    rs.to_multiset_ensures();
    ps.to_multiset_ensures();
    assert forall|x: Region| rs.contains(x) implies #[trigger] group_of(ps, x) == group_of(rs, x) by {
        if x.parent_id is Some {
            lemma_same_parent_names(rs, ps, x);
        }
    }
    assert forall|x: Region| ps.contains(x) implies #[trigger] group_of(ps, x) == group_of(rs, x) by {
        assert(ps.to_multiset().count(x) > 0);
        assert(rs.contains(x));
    }
    assert forall|g: Seq<char>| #[trigger] group_members(ps, g) == ps.filter(in_group(rs, g)) by {
        assert forall|i: int| 0 <= i < ps.len() implies in_group(ps, g)(#[trigger] ps[i]) == in_group(rs, g)(ps[i]) by {
            assert(ps.contains(ps[i]));
        }
        lemma_filter_agree(ps, in_group(ps, g), in_group(rs, g));
    }
    assert forall|a: int| 0 <= a < g1.len() implies (#[trigger] g1[a]).1.len() > 0
        && stable_sorted_by_name(g1[a].1, group_members(ps, g1[a].0)) by {
        let g = g1[a].0;
        let mr = group_members(rs, g);
        let mp = group_members(ps, g);
        assert(mp == ps.filter(in_group(rs, g)));
        lemma_filter_to_multiset(rs, in_group(rs, g));
        lemma_filter_to_multiset(ps, in_group(rs, g));
        assert(mr.to_multiset() == mp.to_multiset());
        mr.to_multiset_ensures();
        mp.to_multiset_ensures();
        assert(mr.len() == mr.to_multiset().len());
        assert(mr.len() == mp.len());
        assert forall|k: Seq<char>| #[trigger] with_name(g1[a].1, k) == with_name(mp, k) by {
            lemma_filter_to_multiset(mr, name_is(k));
            lemma_filter_to_multiset(mp, name_is(k));
            let wr = with_name(mr, k);
            let wp = with_name(mp, k);
            assert(wr.to_multiset() == wp.to_multiset());
            wr.to_multiset_ensures();
            wp.to_multiset_ensures();
            assert(wr.len() == wr.to_multiset().len());
            assert(wp.len() == wp.to_multiset().len());
            if wr.len() > 0 {
                let e = wr[0];
                mr.lemma_filter_pred(name_is(k), 0);
                assert(wr.contains(e));
                mr.lemma_filter_contains_rev(name_is(k), e);
                let ie = choose|i: int| 0 <= i < mr.len() && mr[i] == e;
                rs.lemma_filter_pred(in_group(rs, g), ie);
                assert(mr.contains(e));
                rs.lemma_filter_contains_rev(in_group(rs, g), e);
                let re = choose|i: int| 0 <= i < rs.len() && rs[i] == e;
                assert forall|i: int| 0 <= i < wr.len() implies wr[i] == e by {
                    mr.lemma_filter_pred(name_is(k), i);
                    assert(wr.contains(wr[i]));
                    mr.lemma_filter_contains_rev(name_is(k), wr[i]);
                    let im = choose|m: int| 0 <= m < mr.len() && mr[m] == wr[i];
                    rs.lemma_filter_pred(in_group(rs, g), im);
                    assert(mr.contains(wr[i]));
                    rs.lemma_filter_contains_rev(in_group(rs, g), wr[i]);
                    let ri = choose|m: int| 0 <= m < rs.len() && rs[m] == wr[i];
                    assert(rs[ri] == rs[re]);
                }
                assert forall|i: int| 0 <= i < wp.len() implies wp[i] == e by {
                    assert(wp.contains(wp[i]));
                    assert(wp.to_multiset().count(wp[i]) > 0);
                    assert(wr.to_multiset().count(wp[i]) > 0);
                    assert(wr.contains(wp[i]));
                }
                lemma_all_equal_by_multiset(wr, wp, e);
            } else {
                assert(wp.len() == 0);
                assert(wr =~= wp);
            }
            assert(stable_sorted_by_name(g1[a].1, mr));
        }
    }
    assert forall|i: int| 0 <= i < ps.len() && (#[trigger] ps[i]).parent_id is Some implies exists|a: int|
        0 <= a < g1.len() && group_of(ps, ps[i]) == Some(#[trigger] g1[a].0) by {
        rs.to_multiset_ensures();
        ps.to_multiset_ensures();
        assert(ps.contains(ps[i]));
        assert(ps.to_multiset().count(ps[i]) > 0);
        assert(rs.to_multiset().count(ps[i]) > 0);
        assert(rs.contains(ps[i]));
        let j = choose|j: int| 0 <= j < rs.len() && rs[j] == ps[i];
        assert(rs[j].parent_id is Some);
        assert(group_of(ps, ps[i]) == group_of(rs, ps[i]));
    }
    assert(is_region_grouping(ps, g1));
    lemma_grouping_unique(ps, g1, g2);
}

} // verus!
