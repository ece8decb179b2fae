//! Per query variable, where its components and relations sit among the
//! component ids that the generated code gathers: the variable infos.
use crate::join_order::{has_key, prefill_keys, unrels_view};
use crate::query_terms::{names_view, ANYVAR};
use crate::text::{push_decimal, push_isize, signed_decimal, decimal};
use std::ops::Range;
use vstd::prelude::*;
use vstd::string::StringExecFns;

verus! {

#[derive(Debug, PartialEq, Eq)]
pub struct RelationHelperInfo {
    /// Index where the relationship cid is in the cid array for `old_var`
    pub cid_index: usize,
    pub column_index: usize,
    pub old_var: isize,
    pub new_var: isize,
    /// nr of this RelationHelper, used when generating variable name
    pub nr: usize,
}

#[derive(Debug, PartialEq, Eq)]
pub struct UnrelationHelperInfo {
    pub ty: String,
    /// the relation is checked from its target's side
    pub flip_target: bool,
    pub old_var: isize,
    pub new_var: isize,
    pub nr: usize,
}

#[derive(Debug, PartialEq, Eq)]
pub struct VarInfo {
    /// Index of this variable
    pub index: isize,
    /// variables are intialized in this order
    /// useful for finding out which one is initialized earlier
    /// None when rank is not decided yet
    pub init_rank: Option<u32>,
    /// relation type + other var index => index for relation component;
    /// of two entries with the same key the later one counts
    pub related_with: Vec<((String, isize), usize)>,
    /// indexes in component array for this variables non-optional components
    pub component_range: Range<usize>,
    /// type => component index for accessors
    pub components: Vec<(String, usize)>,
    /// type, index part of context variable name
    pub opt_components: Vec<(String, usize)>,
    /// only built up when joins are computed
    /// When a join is added the already existing variable (`old`) gets a relationship helper added.
    /// This is then used for code gen in steps leading up to the join.
    pub relation_helpers: Vec<RelationHelperInfo>,
    /// Unrelationhelpers are optional (!) RelationHelpers that are negated in checks.
    pub unrelation_helpers: Vec<UnrelationHelperInfo>,
    /// if this var is set by a relation join, then this is the index of the RelationHelper
    /// for that join
    pub join_helper_index: Option<usize>,
}

pub open spec fn comps_view(cs: Seq<(String, isize)>) -> Seq<(Seq<char>, isize)> {
    cs.map_values(|c: (String, isize)| (c.0@, c.1))
}

pub open spec fn rels_view(rs: Seq<(String, isize, isize)>) -> Seq<(Seq<char>, isize, isize)> {
    rs.map_values(|r: (String, isize, isize)| (r.0@, r.1, r.2))
}

pub open spec fn opts_view(os: Seq<(String, isize, usize)>) -> Seq<(Seq<char>, isize, usize)> {
    os.map_values(|o: (String, isize, usize)| (o.0@, o.1, o.2))
}

/// Names and numbers as character sequences and numbers.
pub open spec fn columns_view(cs: Seq<(String, usize)>) -> Seq<(Seq<char>, usize)> {
    cs.map_values(|c: (String, usize)| (c.0@, c.1))
}

pub open spec fn related_view(es: Seq<((String, isize), usize)>) -> Seq<((Seq<char>, isize), usize)> {
    es.map_values(|e: ((String, isize), usize)| ((e.0.0@, e.0.1), e.1))
}

/// The types, numbered from `from` on.
pub open spec fn numbered(ts: Seq<Seq<char>>, from: int) -> Seq<(Seq<char>, usize)> {
    ts.map(|k: int, ty: Seq<char>| (ty, (from + k) as usize))
}

/// The relation entries, numbered from `from` on.
pub open spec fn numbered_rels(es: Seq<(Seq<char>, isize)>, from: int) -> Seq<((Seq<char>, isize), usize)> {
    es.map(|k: int, e: (Seq<char>, isize)| (e, (from + k) as usize))
}

/// The types of `p`'s entries.
pub open spec fn types_of(p: Seq<(Seq<char>, isize)>) -> Seq<Seq<char>> {
    p.map_values(|e: (Seq<char>, isize)| e.0)
}

/// The component types of variable `v`, each once, in order of first occurrence.
pub open spec fn comp_types(cs: Seq<(Seq<char>, isize)>, v: isize) -> Seq<Seq<char>>
    decreases cs.len(),
{
    if cs.len() == 0 {
        Seq::empty()
    } else {
        let prev = comp_types(cs.drop_last(), v);
        if cs.last().1 == v && !prev.contains(cs.last().0) {
            prev.push(cs.last().0)
        } else {
            prev
        }
    }
}

/// The relations from `v`: per relation type the first one, as type and target.
pub open spec fn rels_from(rs: Seq<(Seq<char>, isize, isize)>, v: isize) -> Seq<(Seq<char>, isize)>
    decreases rs.len(),
{
    if rs.len() == 0 {
        Seq::empty()
    } else {
        let prev = rels_from(rs.drop_last(), v);
        let r = rs.last();
        if r.1 == v && !types_of(prev).contains(r.0) {
            prev.push((r.0, r.2))
        } else {
            prev
        }
    }
}

/// The relations to `v`: per relation type the first one, as type and origin.
pub open spec fn rels_to(rs: Seq<(Seq<char>, isize, isize)>, v: isize) -> Seq<(Seq<char>, isize)>
    decreases rs.len(),
{
    if rs.len() == 0 {
        Seq::empty()
    } else {
        let prev = rels_to(rs.drop_last(), v);
        let r = rs.last();
        if r.2 == v && !types_of(prev).contains(r.0) {
            prev.push((r.0, r.1))
        } else {
            prev
        }
    }
}

/// The optional components of `v`, as type and number.
pub open spec fn opts_of(os: Seq<(Seq<char>, isize, usize)>, v: isize) -> Seq<(Seq<char>, usize)>
    decreases os.len(),
{
    if os.len() == 0 {
        Seq::empty()
    } else {
        let prev = opts_of(os.drop_last(), v);
        if os.last().1 == v {
            prev.push((os.last().0, os.last().2))
        } else {
            prev
        }
    }
}

/// How many component ids variable `v` gathers.
pub open spec fn column_count(
    cs: Seq<(Seq<char>, isize)>,
    rs: Seq<(Seq<char>, isize, isize)>,
    v: isize,
) -> nat {
    comp_types(cs, v).len() + rels_from(rs, v).len() + rels_to(rs, v).len()
}

/// Where the component ids of `vars[k]` start: after those of the variables before it.
pub open spec fn first_column(
    vars: Seq<isize>,
    k: int,
    cs: Seq<(Seq<char>, isize)>,
    rs: Seq<(Seq<char>, isize, isize)>,
) -> nat
    decreases k,
{
    if k <= 0 {
        0
    } else {
        first_column(vars, k - 1, cs, rs) + column_count(cs, rs, vars[k - 1])
    }
}

/// Where `info`, the variable info of `vars[k]`, keeps its component ids;
/// planning leaves this as it is.
pub open spec fn laid_out(
    info: VarInfo,
    vars: Seq<isize>,
    k: int,
    cs: Seq<(Seq<char>, isize)>,
    rs: Seq<(Seq<char>, isize, isize)>,
    os: Seq<(Seq<char>, isize, usize)>,
) -> bool {
    let v = vars[k];
    let b = first_column(vars, k, cs, rs);
    let ct = comp_types(cs, v);
    let rf = rels_from(rs, v);
    let rt = rels_to(rs, v);
    &&& info.index == v
    &&& info.component_range.start == b
    &&& info.component_range.end == b + column_count(cs, rs, v)
    &&& columns_view(info.components@) == numbered(ct, b as int)
    &&& related_view(info.related_with@) == numbered_rels(rf, (b + ct.len()) as int) + numbered_rels(
        rt,
        (b + ct.len() + rf.len()) as int,
    )
    &&& columns_view(info.opt_components@) == opts_of(os, v)
}

/// `info` is the variable info of `vars[k]`, before any join is planned.
pub open spec fn fresh_info(
    info: VarInfo,
    vars: Seq<isize>,
    k: int,
    cs: Seq<(Seq<char>, isize)>,
    rs: Seq<(Seq<char>, isize, isize)>,
    os: Seq<(Seq<char>, isize, usize)>,
) -> bool {
    &&& laid_out(info, vars, k, cs, rs, os)
    &&& info.init_rank is None
    &&& info.relation_helpers@.len() == 0
    &&& info.unrelation_helpers@.len() == 0
    &&& info.join_helper_index is None
}

/// `n@` is one of `v`'s names.
fn contains_name(v: &Vec<String>, n: &String) -> (r: bool)
    ensures
        r == names_view(v@).contains(n@),
{
    let mut i: usize = 0;
    while i < v.len()
        invariant
            0 <= i <= v.len(),
            forall|j: int| 0 <= j < i ==> v@[j]@ != n@,
        decreases v.len() - i,
    {
        if v[i] == *n {
            proof {
                assert(names_view(v@)[i as int] == n@);
            }
            return true;
        }
        i += 1;
    }
    proof {
        if names_view(v@).contains(n@) {
            let j = choose|j: int| 0 <= j < names_view(v@).len() && names_view(v@)[j] == n@;
            assert(v@[j]@ == n@);
        }
    }
    false
}

/// The component types of `v`, numbered from `index` on.
fn gather_components(components: &[(String, isize)], v: isize, index: usize) -> (r: Vec<(String, usize)>)
    requires
        index + components@.len() <= usize::MAX,
    ensures
        columns_view(r@) == numbered(comp_types(comps_view(components@), v), index as int),
        comp_types(comps_view(components@), v).len() <= components@.len(),
{
    let ghost cv = comps_view(components@);
    let mut r: Vec<(String, usize)> = Vec::new();
    let mut seen: Vec<String> = Vec::new();
    let mut j: usize = 0;
    while j < components.len()
        invariant
            0 <= j <= components@.len(),
            index + components@.len() <= usize::MAX,
            cv == comps_view(components@),
            names_view(seen@) == comp_types(cv.take(j as int), v),
            comp_types(cv.take(j as int), v).len() <= j,
            r@.len() == seen@.len(),
            columns_view(r@) == numbered(comp_types(cv.take(j as int), v), index as int),
        decreases components@.len() - j,
    {
        proof {
            assert(cv.take(j + 1).drop_last() =~= cv.take(j as int));
            assert(cv.take(j + 1).last() == cv[j as int]);
        }
        let (ty, x) = &components[j];
        if *x == v && !contains_name(&seen, ty) {
            let n = seen.len();
            proof {
                assert(comp_types(cv.take(j + 1), v) == comp_types(cv.take(j as int), v).push(ty@));
            }
            let ghost old_r = r@;
            let ghost ct = comp_types(cv.take(j as int), v);
            seen.push(ty.clone());
            r.push((ty.clone(), index + n));
            proof {
                assert(names_view(seen@) =~= comp_types(cv.take(j + 1), v));
                let ct2 = comp_types(cv.take(j + 1), v);
                assert forall|k: int| 0 <= k < r@.len() implies #[trigger] columns_view(r@)[k] == numbered(ct2, index as int)[k] by {
                    if k < old_r.len() {
                        assert(r@[k] == old_r[k]);
                        assert(columns_view(old_r)[k] == numbered(ct, index as int)[k]);
                    }
                }
                assert(columns_view(r@) =~= numbered(ct2, index as int));
            }
        }
        j += 1;
    }
    proof {
        assert(cv.take(j as int) =~= cv);
    }
    r
}

/// The relations from `v` (or, with `to`, to `v`), numbered from `index` on.
fn gather_relations(relations: &[(String, isize, isize)], v: isize, index: usize, to: bool) -> (r: Vec<
    ((String, isize), usize),
>)
    requires
        index + relations@.len() <= usize::MAX,
    ensures
        related_view(r@) == numbered_rels(
            if to {
                rels_to(rels_view(relations@), v)
            } else {
                rels_from(rels_view(relations@), v)
            },
            index as int,
        ),
        rels_to(rels_view(relations@), v).len() <= relations@.len(),
        rels_from(rels_view(relations@), v).len() <= relations@.len(),
{
    let ghost rv = rels_view(relations@);
    let mut r: Vec<((String, isize), usize)> = Vec::new();
    let mut seen: Vec<String> = Vec::new();
    let mut j: usize = 0;
    while j < relations.len()
        invariant
            0 <= j <= relations@.len(),
            index + relations@.len() <= usize::MAX,
            rv == rels_view(relations@),
            names_view(seen@) == types_of(
                if to {
                    rels_to(rv.take(j as int), v)
                } else {
                    rels_from(rv.take(j as int), v)
                },
            ),
            rels_to(rv.take(j as int), v).len() <= j,
            rels_from(rv.take(j as int), v).len() <= j,
            seen@.len() <= j,
            r@.len() == seen@.len(),
            related_view(r@) == numbered_rels(
                if to {
                    rels_to(rv.take(j as int), v)
                } else {
                    rels_from(rv.take(j as int), v)
                },
                index as int,
            ),
        decreases relations@.len() - j,
    {
        proof {
            assert(rv.take(j + 1).drop_last() =~= rv.take(j as int));
            assert(rv.take(j + 1).last() == rv[j as int]);
        }
        let (ty, from, target) = &relations[j];
        let (here, other) = if to {
            (*target, *from)
        } else {
            (*from, *target)
        };
        if here == v && !contains_name(&seen, ty) {
            let n = seen.len();
            let ghost prev = if to {
                rels_to(rv.take(j as int), v)
            } else {
                rels_from(rv.take(j as int), v)
            };
            let ghost next = if to {
                rels_to(rv.take(j + 1), v)
            } else {
                rels_from(rv.take(j + 1), v)
            };
            proof {
                assert(types_of(prev) == names_view(seen@));
                assert(next == prev.push((ty@, other)));
            }
            let ghost old_r = r@;
            let ghost old_seen = seen@;
            seen.push(ty.clone());
            r.push(((ty.clone(), other), index + n));
            proof {
                assert forall|k: int| 0 <= k < seen@.len() implies #[trigger] names_view(seen@)[k]
                    == types_of(next)[k] by {
                    if k < old_seen.len() {
                        assert(seen@[k] == old_seen[k]);
                        assert(names_view(old_seen)[k] == types_of(prev)[k]);
                    }
                }
                assert(names_view(seen@) =~= types_of(next));
                assert forall|k: int| 0 <= k < r@.len() implies #[trigger] related_view(r@)[k] == numbered_rels(next, index as int)[k] by {
                    if k < old_r.len() {
                        assert(r@[k] == old_r[k]);
                        assert(related_view(old_r)[k]
                            == numbered_rels(prev, index as int)[k]);
                    }
                }
                assert(related_view(r@) =~= numbered_rels(next, index as int));
            }
        }
        j += 1;
    }
    proof {
        assert(rv.take(j as int) =~= rv);
    }
    r
}

/// The optional components of `v`.
fn gather_opts(opt_components: &[(String, isize, usize)], v: isize) -> (r: Vec<(String, usize)>)
    ensures
        columns_view(r@) == opts_of(opts_view(opt_components@), v),
{
    let ghost ov = opts_view(opt_components@);
    let mut r: Vec<(String, usize)> = Vec::new();
    let mut j: usize = 0;
    while j < opt_components.len()
        invariant
            0 <= j <= opt_components@.len(),
            ov == opts_view(opt_components@),
            columns_view(r@) == opts_of(ov.take(j as int), v),
        decreases opt_components@.len() - j,
    {
        proof {
            assert(ov.take(j + 1).drop_last() =~= ov.take(j as int));
            assert(ov.take(j + 1).last() == ov[j as int]);
        }
        let (ty, x, index) = &opt_components[j];
        if *x == v {
            r.push((ty.clone(), *index));
            proof {
                assert(columns_view(r@) =~= opts_of(ov.take(j + 1), v));
            }
        }
        j += 1;
    }
    proof {
        assert(ov.take(j as int) =~= ov);
    }
    r
}

/// The variable infos of `vars`, before any join is planned: per variable its
/// component ids (its components, then its relations from it, then those to
/// it, each type once) numbered on from where the previous variable's ended.
pub fn compute_var_infos(
    vars: &[isize],
    components: &[(String, isize)],
    relations: &[(String, isize, isize)],
    opt_components: &[(String, isize, usize)],
) -> (infos: Vec<VarInfo>)
    requires
        components@.len() + relations@.len() != 0,
        vars@.len() != 0,
        vars@.len() * (components@.len() + 2 * relations@.len()) <= usize::MAX,
    ensures
        infos@.len() == vars@.len(),
        forall|k: int|
            0 <= k < vars@.len() ==> #[trigger] fresh_info(
                infos@[k],
                vars@,
                k,
                comps_view(components@),
                rels_view(relations@),
                opts_view(opt_components@),
            ),
{
    let ghost cs = comps_view(components@);
    let ghost rs = rels_view(relations@);
    let ghost os = opts_view(opt_components@);
    let ghost m = components@.len() + 2 * relations@.len();
    let mut infos: Vec<VarInfo> = Vec::new();
    let mut index: usize = 0;
    let mut k: usize = 0;
    while k < vars.len()
        invariant
            0 <= k <= vars@.len(),
            cs == comps_view(components@),
            rs == rels_view(relations@),
            os == opts_view(opt_components@),
            m == components@.len() + 2 * relations@.len(),
            vars@.len() * m <= usize::MAX,
            index == first_column(vars@, k as int, cs, rs),
            index <= k * m,
            infos@.len() == k,
            forall|i: int| 0 <= i < k ==> #[trigger] fresh_info(infos@[i], vars@, i, cs, rs, os),
        decreases vars@.len() - k,
    {
        proof {
            assert((k + 1) * m <= vars@.len() * m) by (nonlinear_arith)
                requires
                    k + 1 <= vars@.len(),
                    m >= 0,
            ;
            assert((k + 1) * m == k * m + m) by (nonlinear_arith);
        }
        let v = vars[k];
        let comps = gather_components(components, v, index);
        let nc = comps.len();
        proof {
            assert(columns_view(comps@).len() == nc);
            assert(numbered(comp_types(cs, v), index as int).len() == comp_types(cs, v).len());
        }
        let mut related = gather_relations(relations, v, index + nc, false);
        let nf = related.len();
        proof {
            assert(related_view(related@).len() == nf);
            assert(numbered_rels(rels_from(rs, v), (index + nc) as int).len() == rels_from(rs, v).len());
        }
        let mut to = gather_relations(relations, v, index + nc + nf, true);
        let nt = to.len();
        proof {
            assert(related_view(to@).len() == nt);
            assert(numbered_rels(rels_to(rs, v), (index + nc + nf) as int).len() == rels_to(rs, v).len());
        }
        let ghost from_part = related@;
        let ghost to_part = to@;
        related.append(&mut to);
        let opts = gather_opts(opt_components, v);
        let end = index + nc + nf + nt;
        let info = VarInfo {
            index: v,
            init_rank: None,
            related_with: related,
            component_range: index..end,
            components: comps,
            opt_components: opts,
            relation_helpers: Vec::new(),
            unrelation_helpers: Vec::new(),
            join_helper_index: None,
        };
        proof {
            assert(related_view(info.related_with@) =~= related_view(from_part) + related_view(to_part));
            assert(nc == comp_types(cs, v).len());
            assert(nf == rels_from(rs, v).len());
            assert(nt == rels_to(rs, v).len());
        }
        let ghost before = infos@;
        infos.push(info);
        index = end;
        k += 1;
        proof {
            assert forall|i: int| 0 <= i < k implies #[trigger] fresh_info(infos@[i], vars@, i, cs, rs, os) by {
                if i < k - 1 {
                    assert(infos@[i] == before[i]);
                }
            }
        }
    }
    infos
}

/// Every column a fresh variable info names lies within its range.
proof fn lemma_info_columns(
    info: VarInfo,
    vars: Seq<isize>,
    k: int,
    cs: Seq<(Seq<char>, isize)>,
    rs: Seq<(Seq<char>, isize, isize)>,
    os: Seq<(Seq<char>, isize, usize)>,
)
    requires
        fresh_info(info, vars, k, cs, rs, os),
    ensures
        forall|j: int|
            0 <= j < info.components@.len() ==> info.component_range.start <= #[trigger] info.components@[j].1
                < info.component_range.end,
        forall|j: int|
            0 <= j < info.related_with@.len() ==> info.component_range.start
                <= #[trigger] info.related_with@[j].1 < info.component_range.end,
{
    let v = vars[k];
    let b = first_column(vars, k, cs, rs);
    let ct = comp_types(cs, v);
    let rf = rels_from(rs, v);
    let rt = rels_to(rs, v);
    assert(columns_view(info.components@).len() == info.components@.len());
    assert(numbered(ct, b as int).len() == ct.len());
    assert forall|j: int| 0 <= j < info.components@.len() implies info.component_range.start
        <= #[trigger] info.components@[j].1 < info.component_range.end by {
        assert(columns_view(info.components@)[j] == numbered(ct, b as int)[j]);
        assert(columns_view(info.components@)[j].1 == info.components@[j].1);
        assert(numbered(ct, b as int)[j].1 == (b + j) as usize);
        assert(b + j < info.component_range.end);
    }
    let first = numbered_rels(rf, (b + ct.len()) as int);
    let second = numbered_rels(rt, (b + ct.len() + rf.len()) as int);
    assert(related_view(info.related_with@).len() == info.related_with@.len());
    assert(first.len() == rf.len() && second.len() == rt.len());
    assert forall|j: int| 0 <= j < info.related_with@.len() implies info.component_range.start
        <= #[trigger] info.related_with@[j].1 < info.component_range.end by {
        assert(related_view(info.related_with@)[j] == (first + second)[j]);
        assert(related_view(info.related_with@)[j].1 == info.related_with@[j].1);
        if j < first.len() {
            assert((first + second)[j] == first[j]);
            assert(first[j].1 == (b + ct.len() + j) as usize);
        } else {
            assert((first + second)[j] == second[j - first.len()]);
            assert(second[j - first.len()].1 == (b + ct.len() + rf.len() + (j - first.len())) as usize);
        }
    }
}

/// The variables' component ids lie one after the other from 0 on, and every
/// column a variable names lies within its own range.
pub proof fn lemma_ranges_tile(
    infos: Seq<VarInfo>,
    vars: Seq<isize>,
    cs: Seq<(Seq<char>, isize)>,
    rs: Seq<(Seq<char>, isize, isize)>,
    os: Seq<(Seq<char>, isize, usize)>,
)
    requires
        infos.len() == vars.len(),
        forall|k: int| 0 <= k < vars.len() ==> #[trigger] fresh_info(infos[k], vars, k, cs, rs, os),
    ensures
        infos.len() > 0 ==> infos[0].component_range.start == 0,
        forall|k: int|
            0 <= k < infos.len() - 1 ==> (#[trigger] infos[k]).component_range.end == infos[k
                + 1].component_range.start,
        forall|k: int, j: int|
            0 <= k < infos.len() && 0 <= j < infos[k].components@.len() ==> infos[k].component_range.start
                <= #[trigger] infos[k].components@[j].1 < infos[k].component_range.end,
        forall|k: int, j: int|
            0 <= k < infos.len() && 0 <= j < infos[k].related_with@.len() ==> infos[k].component_range.start
                <= #[trigger] infos[k].related_with@[j].1 < infos[k].component_range.end,
{
    if infos.len() > 0 {
        assert(fresh_info(infos[0], vars, 0, cs, rs, os));
    }
    assert forall|k: int| 0 <= k < infos.len() - 1 implies (#[trigger] infos[k]).component_range.end
        == infos[k + 1].component_range.start by {
        assert(fresh_info(infos[k], vars, k, cs, rs, os));
        assert(fresh_info(infos[k + 1], vars, k + 1, cs, rs, os));
    }
    assert forall|k: int, j: int| 0 <= k < infos.len() && 0 <= j < infos[k].components@.len() implies infos[k].component_range.start
        <= #[trigger] infos[k].components@[j].1 < infos[k].component_range.end by {
        assert(fresh_info(infos[k], vars, k, cs, rs, os));
        lemma_info_columns(infos[k], vars, k, cs, rs, os);
    }
    assert forall|k: int, j: int| 0 <= k < infos.len() && 0 <= j < infos[k].related_with@.len() implies infos[k].component_range.start
        <= #[trigger] infos[k].related_with@[j].1 < infos[k].component_range.end by {
        assert(fresh_info(infos[k], vars, k, cs, rs, os));
        lemma_info_columns(infos[k], vars, k, cs, rs, os);
    }
}

/// The counters and buffers that the generated query keeps per variable and per column.
pub open spec fn fsm_context_text(var_count: nat, col_count: nat) -> Seq<char> {
    "\n// result set\nconst VAR_COUNT: usize = "@ + decimal(var_count)
        + ";\nlet mut a_refs = [&bk.archetypes[0]; VAR_COUNT];\nlet mut a_rows = [::froql::archetype::ArchetypeRow(u32::MAX); VAR_COUNT];\n\n// general context for statemachine\nlet mut current_step = 0;\nlet mut a_max_rows = [0; VAR_COUNT];\nlet mut a_next_indexes = [usize::MAX; VAR_COUNT];\nlet mut col_indexes = [usize::MAX; "@
        + decimal(col_count) + "];\n"@
}

/// Writes the state of the generated query: one slot per variable, one column
/// index per component id gathered.
pub fn generate_fsm_context(
    result: &mut String,
    vars: &[isize],
    components: &[(String, isize)],
    relations: &[(String, isize, isize)],
)
    requires
        components@.len() + 2 * relations@.len() <= usize::MAX,
    ensures
        final(result)@ == old(result)@ + fsm_context_text(
            vars@.len() as nat,
            (components@.len() + 2 * relations@.len()) as nat,
        ),
{
    let var_count = vars.len();
    let col_count = components.len() + relations.len() * 2;
    result.append("\n// result set\nconst VAR_COUNT: usize = ");
    push_decimal(result, var_count);
    result.append(
        ";\nlet mut a_refs = [&bk.archetypes[0]; VAR_COUNT];\nlet mut a_rows = [::froql::archetype::ArchetypeRow(u32::MAX); VAR_COUNT];\n\n// general context for statemachine\nlet mut current_step = 0;\nlet mut a_max_rows = [0; VAR_COUNT];\nlet mut a_next_indexes = [usize::MAX; VAR_COUNT];\nlet mut col_indexes = [usize::MAX; ",
    );
    push_decimal(result, col_count);
    result.append("];\n");
    proof {
        assert(result@ =~= old(result)@ + fsm_context_text(
            vars@.len() as nat,
            (components@.len() + 2 * relations@.len()) as nat,
        ));
    }
}

pub open spec fn comp_id_line(ty: Seq<char>) -> Seq<char> {
    "\n    world.get_component_id::<"@ + ty + ">(),"@
}

pub open spec fn rel_id_line(ty: Seq<char>) -> Seq<char> {
    "\n    bk.get_component_id_unchecked(::std::any::TypeId::of::<::froql::relation::Relation<"@ + ty
        + ">>()),"@
}

pub open spec fn flipped_rel_id_line(ty: Seq<char>) -> Seq<char> {
    "\n    "@ + "bk.get_component_id_unchecked(::std::any::TypeId::of::<::froql::relation::Relation<"@ + ty
        + ">>()).flip_target(),"@
}

pub open spec fn comp_lines(ts: Seq<Seq<char>>) -> Seq<char>
    decreases ts.len(),
{
    if ts.len() == 0 {
        Seq::empty()
    } else {
        comp_lines(ts.drop_last()) + comp_id_line(ts.last())
    }
}

pub open spec fn rel_lines(ts: Seq<Seq<char>>) -> Seq<char>
    decreases ts.len(),
{
    if ts.len() == 0 {
        Seq::empty()
    } else {
        rel_lines(ts.drop_last()) + rel_id_line(ts.last())
    }
}

pub open spec fn flipped_rel_lines(ts: Seq<Seq<char>>) -> Seq<char>
    decreases ts.len(),
{
    if ts.len() == 0 {
        Seq::empty()
    } else {
        flipped_rel_lines(ts.drop_last()) + flipped_rel_id_line(ts.last())
    }
}

/// The component ids variable `v` must have: its components, then the
/// relations from it, then the relations to it, each type once.
pub open spec fn components_block(
    v: isize,
    cs: Seq<(Seq<char>, isize)>,
    rs: Seq<(Seq<char>, isize, isize)>,
) -> Seq<char> {
    "let components_"@ + signed_decimal(v as int) + " = ["@ + comp_lines(comp_types(cs, v)) + rel_lines(
        types_of(rels_from(rs, v)),
    ) + flipped_rel_lines(types_of(rels_to(rs, v))) + "\n];\n\n"@
}

pub open spec fn components_blocks(
    vars: Seq<isize>,
    cs: Seq<(Seq<char>, isize)>,
    rs: Seq<(Seq<char>, isize, isize)>,
) -> Seq<char>
    decreases vars.len(),
{
    if vars.len() == 0 {
        Seq::empty()
    } else {
        components_blocks(vars.drop_last(), cs, rs) + components_block(vars.last(), cs, rs)
    }
}

fn push_string(s: &mut String, t: &String)
    ensures
        final(s)@ == old(s)@ + t@,
{
    s.append(t.as_str());
}

/// Writes the component ids that variable `v` must have.
fn write_components_block(
    result: &mut String,
    v: isize,
    components: &[(String, isize)],
    relations: &[(String, isize, isize)],
)
    ensures
        final(result)@ == old(result)@ + components_block(v, comps_view(components@), rels_view(relations@)),
{
    let ghost cs = comps_view(components@);
    let ghost rs = rels_view(relations@);
    result.append("let components_");
    push_isize(result, v);
    result.append(" = [");
    let ghost head = result@;
    let _nc = components.len();
    let comps = gather_components(components, v, 0);
    let ghost ct = comp_types(cs, v);
    proof {
        assert(columns_view(comps@).len() == numbered(ct, 0).len());
    }
    let mut i: usize = 0;
    while i < comps.len()
        invariant
            0 <= i <= comps@.len(),
            comps@.len() == ct.len(),
            columns_view(comps@) == numbered(ct, 0),
            result@ == head + comp_lines(ct.take(i as int)),
        decreases comps@.len() - i,
    {
        proof {
            assert(columns_view(comps@)[i as int] == numbered(ct, 0)[i as int]);
            assert(ct.take(i + 1).drop_last() =~= ct.take(i as int));
        }
        result.append("\n    world.get_component_id::<");
        push_string(result, &comps[i].0);
        result.append(">(),");
        i += 1;
        proof {
            assert(result@ =~= head + comp_lines(ct.take(i as int)));
        }
    }
    proof {
        assert(numbered(ct, 0).len() == ct.len());
        assert(ct.take(i as int) =~= ct);
    }
    let ghost mid = result@;
    let _nr = relations.len();
    let from = gather_relations(relations, v, 0, false);
    let ghost rf = types_of(rels_from(rs, v));
    proof {
        assert(related_view(from@).len() == numbered_rels(rels_from(rs, v), 0).len());
    }
    let mut i: usize = 0;
    while i < from.len()
        invariant
            0 <= i <= from@.len(),
            from@.len() == rf.len(),
            related_view(from@) == numbered_rels(rels_from(rs, v), 0),
            rf == types_of(rels_from(rs, v)),
            result@ == mid + rel_lines(rf.take(i as int)),
        decreases from@.len() - i,
    {
        proof {
            assert(related_view(from@)[i as int] == numbered_rels(rels_from(rs, v), 0)[i as int]);
            assert(rf.take(i + 1).drop_last() =~= rf.take(i as int));
        }
        result.append("\n    bk.get_component_id_unchecked(::std::any::TypeId::of::<::froql::relation::Relation<");
        push_string(result, &from[i].0.0);
        result.append(">>()),");
        i += 1;
        proof {
            assert(result@ =~= mid + rel_lines(rf.take(i as int)));
        }
    }
    proof {
        assert(numbered_rels(rels_from(rs, v), 0).len() == rf.len());
        assert(rf.take(i as int) =~= rf);
    }
    let ghost mid2 = result@;
    let to = gather_relations(relations, v, 0, true);
    let ghost rt = types_of(rels_to(rs, v));
    proof {
        assert(related_view(to@).len() == numbered_rels(rels_to(rs, v), 0).len());
    }
    let mut i: usize = 0;
    while i < to.len()
        invariant
            0 <= i <= to@.len(),
            to@.len() == rt.len(),
            related_view(to@) == numbered_rels(rels_to(rs, v), 0),
            rt == types_of(rels_to(rs, v)),
            result@ == mid2 + flipped_rel_lines(rt.take(i as int)),
        decreases to@.len() - i,
    {
        proof {
            assert(related_view(to@)[i as int] == numbered_rels(rels_to(rs, v), 0)[i as int]);
            assert(rt.take(i + 1).drop_last() =~= rt.take(i as int));
        }
        result.append("\n    ");
        result.append("bk.get_component_id_unchecked(::std::any::TypeId::of::<::froql::relation::Relation<");
        push_string(result, &to[i].0.0);
        result.append(">>()).flip_target(),");
        i += 1;
        proof {
            assert(result@ =~= mid2 + flipped_rel_lines(rt.take(i as int)));
        }
    }
    proof {
        assert(numbered_rels(rels_to(rs, v), 0).len() == rt.len());
        assert(rt.take(i as int) =~= rt);
    }
    result.append("\n];\n\n");
    proof {
        assert(result@ =~= old(result)@ + components_block(v, cs, rs));
    }
}

/// The lines of the negated components of `v`.
pub open spec fn uncomp_lines(us: Seq<(Seq<char>, isize)>, v: isize) -> Seq<char>
    decreases us.len(),
{
    if us.len() == 0 {
        Seq::empty()
    } else {
        uncomp_lines(us.drop_last(), v) + if us.last().1 == v {
            comp_id_line(us.last().0)
        } else {
            Seq::empty()
        }
    }
}

/// The lines of the negated relations from `v` to any entity.
pub open spec fn any_target_lines(urs: Seq<(Seq<char>, isize, isize, usize)>, v: isize) -> Seq<char>
    decreases urs.len(),
{
    if urs.len() == 0 {
        Seq::empty()
    } else {
        any_target_lines(urs.drop_last(), v) + if urs.last().2 == ANYVAR && urs.last().1 == v {
            rel_id_line(urs.last().0)
        } else {
            Seq::empty()
        }
    }
}

/// The lines of the negated relations from any entity to `v`.
pub open spec fn any_origin_lines(urs: Seq<(Seq<char>, isize, isize, usize)>, v: isize) -> Seq<char>
    decreases urs.len(),
{
    if urs.len() == 0 {
        Seq::empty()
    } else {
        any_origin_lines(urs.drop_last(), v) + if urs.last().1 == ANYVAR && urs.last().2 == v {
            flipped_rel_id_line(urs.last().0)
        } else {
            Seq::empty()
        }
    }
}

/// The component ids variable `v` must not have.
pub open spec fn uncomponents_block(
    v: isize,
    us: Seq<(Seq<char>, isize)>,
    urs: Seq<(Seq<char>, isize, isize, usize)>,
) -> Seq<char> {
    "let uncomponents_"@ + signed_decimal(v as int) + " = ["@ + uncomp_lines(us, v) + any_target_lines(urs, v)
        + any_origin_lines(urs, v) + "\n];\n\n"@
}

/// Those blocks for the variables not bound from outside.
pub open spec fn uncomponents_blocks(
    vars: Seq<isize>,
    pk: Seq<isize>,
    us: Seq<(Seq<char>, isize)>,
    urs: Seq<(Seq<char>, isize, isize, usize)>,
) -> Seq<char>
    decreases vars.len(),
{
    if vars.len() == 0 {
        Seq::empty()
    } else {
        uncomponents_blocks(vars.drop_last(), pk, us, urs) + if pk.contains(vars.last()) {
            Seq::empty()
        } else {
            uncomponents_block(vars.last(), us, urs)
        }
    }
}

/// The archetypes variable `v` may lie in: none to search for a variable bound
/// from outside.
pub open spec fn set_line(v: isize, pk: Seq<isize>, negated: bool) -> Seq<char> {
    if pk.contains(v) {
        "    Vec::<::froql::archetype::ArchetypeId>::new(),\n"@
    } else if negated {
        "    bk.matching_archetypes(&components_"@ + signed_decimal(v as int) + ", &uncomponents_"@
            + signed_decimal(v as int) + "),\n"@
    } else {
        "    bk.matching_archetypes(&components_"@ + signed_decimal(v as int) + ", &[]),\n"@
    }
}

pub open spec fn set_lines(vars: Seq<isize>, pk: Seq<isize>, negated: bool) -> Seq<char>
    decreases vars.len(),
{
    if vars.len() == 0 {
        Seq::empty()
    } else {
        set_lines(vars.drop_last(), pk, negated) + set_line(vars.last(), pk, negated)
    }
}

/// The code that finds, per variable, the archetypes that may hold it.
pub open spec fn archetype_sets_text(
    vars: Seq<isize>,
    pk: Seq<isize>,
    cs: Seq<(Seq<char>, isize)>,
    rs: Seq<(Seq<char>, isize, isize)>,
    us: Seq<(Seq<char>, isize)>,
    urs: Seq<(Seq<char>, isize, isize, usize)>,
) -> Seq<char> {
    components_blocks(vars, cs, rs) + if us.len() == 0 && urs.len() == 0 {
        "let archetype_id_sets = [\n"@ + set_lines(vars, pk, false) + "];\n\n"@
    } else {
        uncomponents_blocks(vars, pk, us, urs) + "let archetype_id_sets = [\n"@ + set_lines(vars, pk, true)
            + "];\n\n"@
    }
}

/// Writes the component ids that variable `v` must not have.
fn write_uncomponents_block(
    result: &mut String,
    v: isize,
    uncomponents: &[(String, isize)],
    unrelations: &[(String, isize, isize, usize)],
)
    ensures
        final(result)@ == old(result)@ + uncomponents_block(v, comps_view(uncomponents@), unrels_view(unrelations@)),
{
    let ghost us = comps_view(uncomponents@);
    let ghost urs = unrels_view(unrelations@);
    result.append("let uncomponents_");
    push_isize(result, v);
    result.append(" = [");
    let ghost head = result@;
    let mut i: usize = 0;
    while i < uncomponents.len()
        invariant
            0 <= i <= uncomponents@.len(),
            us == comps_view(uncomponents@),
            result@ == head + uncomp_lines(us.take(i as int), v),
        decreases uncomponents@.len() - i,
    {
        proof {
            assert(us.take(i + 1).drop_last() =~= us.take(i as int));
            assert(us.take(i + 1).last() == us[i as int]);
        }
        if uncomponents[i].1 == v {
            result.append("\n    world.get_component_id::<");
            push_string(result, &uncomponents[i].0);
            result.append(">(),");
        }
        i += 1;
        proof {
            assert(result@ =~= head + uncomp_lines(us.take(i as int), v));
        }
    }
    proof {
        assert(us.take(i as int) =~= us);
    }
    let ghost mid = result@;
    let mut i: usize = 0;
    while i < unrelations.len()
        invariant
            0 <= i <= unrelations@.len(),
            urs == unrels_view(unrelations@),
            result@ == mid + any_target_lines(urs.take(i as int), v),
        decreases unrelations@.len() - i,
    {
        proof {
            assert(urs.take(i + 1).drop_last() =~= urs.take(i as int));
            assert(urs.take(i + 1).last() == urs[i as int]);
        }
        if unrelations[i].2 == ANYVAR && unrelations[i].1 == v {
            result.append("\n    bk.get_component_id_unchecked(::std::any::TypeId::of::<::froql::relation::Relation<");
            push_string(result, &unrelations[i].0);
            result.append(">>()),");
        }
        i += 1;
        proof {
            assert(result@ =~= mid + any_target_lines(urs.take(i as int), v));
        }
    }
    proof {
        assert(urs.take(i as int) =~= urs);
    }
    let ghost mid2 = result@;
    let mut i: usize = 0;
    while i < unrelations.len()
        invariant
            0 <= i <= unrelations@.len(),
            urs == unrels_view(unrelations@),
            result@ == mid2 + any_origin_lines(urs.take(i as int), v),
        decreases unrelations@.len() - i,
    {
        proof {
            assert(urs.take(i + 1).drop_last() =~= urs.take(i as int));
            assert(urs.take(i + 1).last() == urs[i as int]);
        }
        if unrelations[i].1 == ANYVAR && unrelations[i].2 == v {
            result.append("\n    ");
            result.append("bk.get_component_id_unchecked(::std::any::TypeId::of::<::froql::relation::Relation<");
            push_string(result, &unrelations[i].0);
            result.append(">>()).flip_target(),");
        }
        i += 1;
        proof {
            assert(result@ =~= mid2 + any_origin_lines(urs.take(i as int), v));
        }
    }
    proof {
        assert(urs.take(i as int) =~= urs);
    }
    result.append("\n];\n\n");
    proof {
        assert(result@ =~= old(result)@ + uncomponents_block(v, us, urs));
    }
}

/// Writes the line of the archetypes that variable `v` may lie in.
fn write_set_line(result: &mut String, v: isize, prefills: &[(isize, String)], negated: bool)
    ensures
        final(result)@ == old(result)@ + set_line(v, prefill_keys(prefills@), negated),
{
    if has_key(prefills, v) {
        // don't need this for prefills
        result.append("    Vec::<::froql::archetype::ArchetypeId>::new(),\n");
    } else if negated {
        result.append("    bk.matching_archetypes(&components_");
        push_isize(result, v);
        result.append(", &uncomponents_");
        push_isize(result, v);
        result.append("),\n");
    } else {
        result.append("    bk.matching_archetypes(&components_");
        push_isize(result, v);
        result.append(", &[]),\n");
    }
    proof {
        assert(result@ =~= old(result)@ + set_line(v, prefill_keys(prefills@), negated));
    }
}

/// Writes the code that finds, per variable, the archetypes that may hold it.
pub fn generate_archetype_sets(
    result: &mut String,
    vars: &[isize],
    prefills: &[(isize, String)],
    components: &[(String, isize)],
    relations: &[(String, isize, isize)],
    uncomponents: &[(String, isize)],
    unrelations: &[(String, isize, isize, usize)],
)
    requires
        components@.len() + relations@.len() != 0,
        vars@.len() != 0,
    ensures
        final(result)@ == old(result)@ + archetype_sets_text(
            vars@,
            prefill_keys(prefills@),
            comps_view(components@),
            rels_view(relations@),
            comps_view(uncomponents@),
            unrels_view(unrelations@),
        ),
{
    let ghost cs = comps_view(components@);
    let ghost rs = rels_view(relations@);
    let ghost us = comps_view(uncomponents@);
    let ghost urs = unrels_view(unrelations@);
    let ghost pk = prefill_keys(prefills@);
    let ghost start = result@;
    let mut k: usize = 0;
    while k < vars.len()
        invariant
            0 <= k <= vars@.len(),
            cs == comps_view(components@),
            rs == rels_view(relations@),
            result@ == start + components_blocks(vars@.take(k as int), cs, rs),
        decreases vars@.len() - k,
    {
        proof {
            assert(vars@.take(k + 1).drop_last() =~= vars@.take(k as int));
        }
        write_components_block(result, vars[k], components, relations);
        k += 1;
        proof {
            assert(result@ =~= start + components_blocks(vars@.take(k as int), cs, rs));
        }
    }
    proof {
        assert(vars@.take(k as int) =~= vars@);
    }
    let ghost after_blocks = result@;
    let negated = !(uncomponents.len() == 0 && unrelations.len() == 0);
    if negated {
        let mut k: usize = 0;
        while k < vars.len()
            invariant
                0 <= k <= vars@.len(),
                us == comps_view(uncomponents@),
                urs == unrels_view(unrelations@),
                pk == prefill_keys(prefills@),
                result@ == after_blocks + uncomponents_blocks(vars@.take(k as int), pk, us, urs),
            decreases vars@.len() - k,
        {
            proof {
                assert(vars@.take(k + 1).drop_last() =~= vars@.take(k as int));
            }
            if !has_key(prefills, vars[k]) {
                write_uncomponents_block(result, vars[k], uncomponents, unrelations);
            }
            k += 1;
            proof {
                assert(result@ =~= after_blocks + uncomponents_blocks(vars@.take(k as int), pk, us, urs));
            }
        }
        proof {
            assert(vars@.take(k as int) =~= vars@);
        }
    }
    let ghost before_sets = result@;
    result.append("let archetype_id_sets = [\n");
    let ghost sets_start = result@;
    let mut k: usize = 0;
    while k < vars.len()
        invariant
            0 <= k <= vars@.len(),
            pk == prefill_keys(prefills@),
            result@ == sets_start + set_lines(vars@.take(k as int), pk, negated),
        decreases vars@.len() - k,
    {
        proof {
            assert(vars@.take(k + 1).drop_last() =~= vars@.take(k as int));
        }
        write_set_line(result, vars[k], prefills, negated);
        k += 1;
        proof {
            assert(result@ =~= sets_start + set_lines(vars@.take(k as int), pk, negated));
        }
    }
    proof {
        assert(vars@.take(k as int) =~= vars@);
    }
    result.append("];\n\n");
    proof {
        assert(result@ =~= start + archetype_sets_text(vars@, pk, cs, rs, us, urs));
    }
}


/// `t` occurs in `s`.
pub open spec fn has_text(s: Seq<char>, t: Seq<char>) -> bool {
    exists|i: int| 0 <= i && i + t.len() <= s.len() && #[trigger] s.subrange(i, i + t.len()) == t
}

proof fn lemma_has_text_self(t: Seq<char>)
    ensures
        has_text(t, t),
{
    assert(t.subrange(0int, 0int + t.len()) =~= t);
}

proof fn lemma_has_text_left(a: Seq<char>, b: Seq<char>, t: Seq<char>)
    requires
        has_text(a, t),
    ensures
        has_text(a + b, t),
{
    let i = choose|i: int| 0 <= i && i + t.len() <= a.len() && #[trigger] a.subrange(i, i + t.len()) == t;
    assert((a + b).subrange(i, i + t.len()) =~= a.subrange(i, i + t.len()));
}

proof fn lemma_has_text_right(a: Seq<char>, b: Seq<char>, t: Seq<char>)
    requires
        has_text(b, t),
    ensures
        has_text(a + b, t),
{
    let i = choose|i: int| 0 <= i && i + t.len() <= b.len() && #[trigger] b.subrange(i, i + t.len()) == t;
    assert((a + b).subrange(a.len() + i, a.len() + i + t.len()) =~= b.subrange(i, i + t.len()));
}

/// The line of the archetype set of `v` that leaves out its excluded component ids.
pub open spec fn excluding_set_line(v: isize) -> Seq<char> {
    "    bk.matching_archetypes(&components_"@ + signed_decimal(v as int) + ", &uncomponents_"@
        + signed_decimal(v as int) + "),\n"@
}

/// The start of the list of component ids that `v` must not have.
pub open spec fn excluded_ids_start(v: isize) -> Seq<char> {
    "let uncomponents_"@ + signed_decimal(v as int) + " = ["@
}

proof fn lemma_set_lines_have(vars: Seq<isize>, pk: Seq<isize>, v: isize)
    requires
        vars.contains(v),
        !pk.contains(v),
    ensures
        has_text(set_lines(vars, pk, true), excluding_set_line(v)),
    decreases vars.len(),
{
    let prev = vars.drop_last();
    if vars.last() == v {
        lemma_has_text_self(set_line(v, pk, true));
        lemma_has_text_right(set_lines(prev, pk, true), set_line(v, pk, true), excluding_set_line(v));
    } else {
        let k = choose|k: int| 0 <= k < vars.len() && vars[k] == v;
        assert(prev[k] == v);
        lemma_set_lines_have(prev, pk, v);
        lemma_has_text_left(set_lines(prev, pk, true), set_line(vars.last(), pk, true), excluding_set_line(v));
    }
}

proof fn lemma_blocks_have(
    vars: Seq<isize>,
    pk: Seq<isize>,
    us: Seq<(Seq<char>, isize)>,
    urs: Seq<(Seq<char>, isize, isize, usize)>,
    v: isize,
    t: Seq<char>,
)
    requires
        vars.contains(v),
        !pk.contains(v),
        has_text(uncomponents_block(v, us, urs), t),
    ensures
        has_text(uncomponents_blocks(vars, pk, us, urs), t),
    decreases vars.len(),
{
    let prev = vars.drop_last();
    if vars.last() == v {
        lemma_has_text_right(uncomponents_blocks(prev, pk, us, urs), uncomponents_block(v, us, urs), t);
    } else {
        let k = choose|k: int| 0 <= k < vars.len() && vars[k] == v;
        assert(prev[k] == v);
        lemma_blocks_have(prev, pk, us, urs, v, t);
        let last = if pk.contains(vars.last()) { Seq::<char>::empty() } else { uncomponents_block(vars.last(), us, urs) };
        lemma_has_text_left(uncomponents_blocks(prev, pk, us, urs), last, t);
    }
}

proof fn lemma_uncomp_lines_have(us: Seq<(Seq<char>, isize)>, v: isize, ty: Seq<char>)
    requires
        us.contains((ty, v)),
    ensures
        has_text(uncomp_lines(us, v), comp_id_line(ty)),
    decreases us.len(),
{
    let prev = us.drop_last();
    if us.last() == (ty, v) {
        lemma_has_text_self(comp_id_line(ty));
        lemma_has_text_right(uncomp_lines(prev, v), comp_id_line(ty), comp_id_line(ty));
    } else {
        let k = choose|k: int| 0 <= k < us.len() && us[k] == (ty, v);
        assert(prev[k] == (ty, v));
        lemma_uncomp_lines_have(prev, v, ty);
        let last = if us.last().1 == v { comp_id_line(us.last().0) } else { Seq::<char>::empty() };
        lemma_has_text_left(uncomp_lines(prev, v), last, comp_id_line(ty));
    }
}

proof fn lemma_any_target_lines_have(urs: Seq<(Seq<char>, isize, isize, usize)>, v: isize, k: int)
    requires
        0 <= k < urs.len(),
        urs[k].1 == v,
        urs[k].2 == ANYVAR,
    ensures
        has_text(any_target_lines(urs, v), rel_id_line(urs[k].0)),
    decreases urs.len(),
{
    let prev = urs.drop_last();
    let t = rel_id_line(urs[k].0);
    if k == urs.len() - 1 {
        lemma_has_text_self(t);
        lemma_has_text_right(any_target_lines(prev, v), t, t);
    } else {
        assert(prev[k] == urs[k]);
        lemma_any_target_lines_have(prev, v, k);
        let last = if urs.last().2 == ANYVAR && urs.last().1 == v { rel_id_line(urs.last().0) } else { Seq::<char>::empty() };
        lemma_has_text_left(any_target_lines(prev, v), last, t);
    }
}

proof fn lemma_any_origin_lines_have(urs: Seq<(Seq<char>, isize, isize, usize)>, v: isize, k: int)
    requires
        0 <= k < urs.len(),
        urs[k].2 == v,
        urs[k].1 == ANYVAR,
    ensures
        has_text(any_origin_lines(urs, v), flipped_rel_id_line(urs[k].0)),
    decreases urs.len(),
{
    let prev = urs.drop_last();
    let t = flipped_rel_id_line(urs[k].0);
    if k == urs.len() - 1 {
        lemma_has_text_self(t);
        lemma_has_text_right(any_origin_lines(prev, v), t, t);
    } else {
        assert(prev[k] == urs[k]);
        lemma_any_origin_lines_have(prev, v, k);
        let last = if urs.last().1 == ANYVAR && urs.last().2 == v { flipped_rel_id_line(urs.last().0) } else { Seq::<char>::empty() };
        lemma_has_text_left(any_origin_lines(prev, v), last, t);
    }
}

/// Law: every exclusion of the query reaches the archetype sets. For a variable `v` that
/// is not bound from outside and that has a negated component `!T(v)`, a negated relation
/// `!R(v, _)` or a negated relation `!R(_, v)`, the text lists the component ids `v` must
/// not have (`let uncomponents_v = [`), lists among them the id of `T`, of `R`'s origin
/// side or of `R`'s target side, and searches the archetypes of `v` with that list.
pub proof fn lemma_exclusions_reach_the_sets(
    vars: Seq<isize>,
    pk: Seq<isize>,
    cs: Seq<(Seq<char>, isize)>,
    rs: Seq<(Seq<char>, isize, isize)>,
    us: Seq<(Seq<char>, isize)>,
    urs: Seq<(Seq<char>, isize, isize, usize)>,
    v: isize,
)
    requires
        vars.contains(v),
        !pk.contains(v),
    ensures
        ({
            let text = archetype_sets_text(vars, pk, cs, rs, us, urs);
            &&& (exists|ty: Seq<char>| us.contains((ty, v))) || (exists|k: int|
                0 <= k < urs.len() && urs[k].1 == v && urs[k].2 == ANYVAR) || (exists|k: int|
                0 <= k < urs.len() && urs[k].2 == v && urs[k].1 == ANYVAR) ==> has_text(text, excluding_set_line(v))
                && has_text(text, excluded_ids_start(v))
            &&& forall|ty: Seq<char>| us.contains((ty, v)) ==> has_text(text, #[trigger] comp_id_line(ty))
            &&& forall|k: int|
                0 <= k < urs.len() && urs[k].1 == v && urs[k].2 == ANYVAR ==> has_text(text, #[trigger] rel_id_line(urs[k].0))
            &&& forall|k: int|
                0 <= k < urs.len() && urs[k].2 == v && urs[k].1 == ANYVAR ==> has_text(
                    text,
                    #[trigger] flipped_rel_id_line(urs[k].0),
                )
        }),
{
    let text = archetype_sets_text(vars, pk, cs, rs, us, urs);
    let cb = components_blocks(vars, cs, rs);
    let ub = uncomponents_blocks(vars, pk, us, urs);
    let head = "let archetype_id_sets = [\n"@;
    let sl = set_lines(vars, pk, true);
    let tail = "];\n\n"@;
    let blk = uncomponents_block(v, us, urs);
    let inner = uncomp_lines(us, v) + any_target_lines(urs, v) + any_origin_lines(urs, v);
    // the text of a query with exclusions, and a piece of it
    assert forall|t: Seq<char>| !(us.len() == 0 && urs.len() == 0) && has_text(blk, t) implies has_text(text, t) by {
        lemma_blocks_have(vars, pk, us, urs, v, t);
        lemma_has_text_left(ub, head + sl + tail, t);
        assert(ub + (head + sl + tail) =~= ub + head + sl + tail);
        lemma_has_text_right(cb, ub + head + sl + tail, t);
        assert(text =~= cb + (ub + head + sl + tail));
    }
    assert forall|t: Seq<char>| has_text(inner, t) implies has_text(blk, t) by {
        let a = excluded_ids_start(v);
        let z = "\n];\n\n"@;
        lemma_has_text_right(a, inner, t);
        lemma_has_text_left(a + inner, z, t);
        assert(blk =~= a + inner + z);
    }
    if !(us.len() == 0 && urs.len() == 0) {
        lemma_set_lines_have(vars, pk, v);
        lemma_has_text_right(head, sl, excluding_set_line(v));
        lemma_has_text_left(head + sl, tail, excluding_set_line(v));
        lemma_has_text_right(cb + ub, head + sl + tail, excluding_set_line(v));
        assert(text =~= (cb + ub) + (head + sl + tail));
        let a = excluded_ids_start(v);
        lemma_has_text_self(a);
        lemma_has_text_left(a, inner + "\n];\n\n"@, a);
        assert(blk =~= a + (inner + "\n];\n\n"@));
    }
    assert forall|ty: Seq<char>| us.contains((ty, v)) implies has_text(text, #[trigger] comp_id_line(ty)) by {
        lemma_uncomp_lines_have(us, v, ty);
        let l1 = uncomp_lines(us, v);
        let l2 = any_target_lines(urs, v) + any_origin_lines(urs, v);
        lemma_has_text_left(l1, l2, comp_id_line(ty));
        assert(inner =~= l1 + l2);
    }
    assert forall|k: int| 0 <= k < urs.len() && urs[k].1 == v && urs[k].2 == ANYVAR implies has_text(
        text,
        #[trigger] rel_id_line(urs[k].0),
    ) by {
        lemma_any_target_lines_have(urs, v, k);
        let l1 = uncomp_lines(us, v);
        let l2 = any_target_lines(urs, v);
        let l3 = any_origin_lines(urs, v);
        lemma_has_text_right(l1, l2, rel_id_line(urs[k].0));
        lemma_has_text_left(l1 + l2, l3, rel_id_line(urs[k].0));
    }
    assert forall|k: int| 0 <= k < urs.len() && urs[k].2 == v && urs[k].1 == ANYVAR implies has_text(
        text,
        #[trigger] flipped_rel_id_line(urs[k].0),
    ) by {
        lemma_any_origin_lines_have(urs, v, k);
        lemma_has_text_right(uncomp_lines(us, v) + any_target_lines(urs, v), any_origin_lines(urs, v), flipped_rel_id_line(urs[k].0));
    }
}
} // verus!
