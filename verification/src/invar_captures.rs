//! The lines that capture the entities a query's variables are bound to from
//! outside, in the order of the variables' numbers.
use crate::query_terms::keys_distinct;
use crate::text::{push_isize, signed_decimal};
use vstd::prelude::*;
use vstd::string::StringExecFns;

verus! {

pub open spec fn entries_view(ps: Seq<(isize, String)>) -> Seq<(isize, Seq<char>)> {
    ps.map_values(|p: (isize, String)| (p.0, p.1@))
}

/// The keys grow strictly from each entry to the next.
pub open spec fn key_sorted(o: Seq<(isize, Seq<char>)>) -> bool {
    forall|i: int, j: int| 0 <= i < j < o.len() ==> o[i].0 < o[j].0
}

/// The two lists hold the same entries.
pub open spec fn same_entries(a: Seq<(isize, Seq<char>)>, b: Seq<(isize, Seq<char>)>) -> bool {
    forall|e: (isize, Seq<char>)| a.contains(e) <==> b.contains(e)
}

/// What it takes to be the entries of `es` ordered by key.
pub open spec fn orders(es: Seq<(isize, Seq<char>)>) -> spec_fn(Seq<(isize, Seq<char>)>) -> bool {
    |o: Seq<(isize, Seq<char>)>| key_sorted(o) && same_entries(o, es)
}

/// A list that `p` holds of, where there is one.
pub open spec fn some_list(p: spec_fn(Seq<(isize, Seq<char>)>) -> bool) -> Seq<(isize, Seq<char>)> {
    choose|o: Seq<(isize, Seq<char>)>| #[trigger] p(o)
}

/// The entries of `es` ordered by key.
pub open spec fn sorted_entries(es: Seq<(isize, Seq<char>)>) -> Seq<(isize, Seq<char>)> {
    some_list(orders(es))
}

pub open spec fn capture_line(e: (isize, Seq<char>)) -> Seq<char> {
    "let invar_"@ + signed_decimal(e.0 as int) + ": ::froql::entity_store::Entity = (&"@ + e.1 + ").into();\n"@
}

pub open spec fn capture_lines(o: Seq<(isize, Seq<char>)>) -> Seq<char>
    decreases o.len(),
{
    if o.len() == 0 {
        Seq::empty()
    } else {
        capture_lines(o.drop_last()) + capture_line(o.last())
    }
}

/// One capture line per entry, in the order of the keys.
pub open spec fn invar_captures_text(ps: Seq<(isize, String)>) -> Seq<char> {
    capture_lines(sorted_entries(entries_view(ps)))
}

/// Two lists ordered by key that hold the same entries are the same list.
pub proof fn lemma_sorted_unique(a: Seq<(isize, Seq<char>)>, b: Seq<(isize, Seq<char>)>)
    requires
        key_sorted(a),
        key_sorted(b),
        same_entries(a, b),
    ensures
        a == b,
    decreases a.len(),
{
    if a.len() == 0 {
        if b.len() > 0 {
            assert(b.contains(b[0]));
        }
        assert(a =~= b);
    } else {
        assert(a.contains(a[0]));
        assert(b.len() > 0);
        assert(b.contains(b[0]));
        let m = choose|m: int| 0 <= m < b.len() && b[m] == a[0];
        let n = choose|n: int| 0 <= n < a.len() && a[n] == b[0];
        if m > 0 {
            assert(b[0].0 < b[m].0);
            if n > 0 {
                assert(a[0].0 < a[n].0);
            }
        }
        assert(m == 0);
        let a1 = a.drop_first();
        let b1 = b.drop_first();
        assert forall|e: (isize, Seq<char>)| a1.contains(e) <==> b1.contains(e) by {
            if a1.contains(e) {
                let i = choose|i: int| 0 <= i < a1.len() && a1[i] == e;
                assert(a[i + 1] == e);
                assert(a[0].0 < e.0);
                assert(b.contains(e));
                let j = choose|j: int| 0 <= j < b.len() && b[j] == e;
                assert(j != 0);
                assert(b1[j - 1] == e);
            }
            if b1.contains(e) {
                let i = choose|i: int| 0 <= i < b1.len() && b1[i] == e;
                assert(b[i + 1] == e);
                assert(b[0].0 < e.0);
                assert(a.contains(e));
                let j = choose|j: int| 0 <= j < a.len() && a[j] == e;
                assert(j != 0);
                assert(a1[j - 1] == e);
            }
        }
        lemma_sorted_unique(a1, b1);
        assert(a =~= b1.insert(0, a[0]));
        assert(b =~= b1.insert(0, b[0]));
    }
}

/// The capture lines depend on which variables are bound to which names, not
/// on the order in which the bindings are listed.
pub proof fn lemma_captures_ignore_order(a: Seq<(isize, String)>, b: Seq<(isize, String)>)
    requires
        same_entries(entries_view(a), entries_view(b)),
    ensures
        invar_captures_text(a) == invar_captures_text(b),
{
    let ea = entries_view(a);
    let eb = entries_view(b);
    let pa = orders(ea);
    let pb = orders(eb);
    assert forall|o: Seq<(isize, Seq<char>)>| #[trigger] pa(o) == pb(o) by {
        if same_entries(o, ea) {
            assert forall|e: (isize, Seq<char>)| o.contains(e) <==> eb.contains(e) by {
                assert(o.contains(e) <==> ea.contains(e));
                assert(ea.contains(e) <==> eb.contains(e));
            }
        }
        if same_entries(o, eb) {
            assert forall|e: (isize, Seq<char>)| o.contains(e) <==> ea.contains(e) by {
                assert(o.contains(e) <==> eb.contains(e));
                assert(ea.contains(e) <==> eb.contains(e));
            }
        }
    }
    assert(pa =~= pb);
    assert(sorted_entries(ea) == sorted_entries(eb));
}

/// Keys held apart in the list stay apart in its view.
proof fn lemma_entries_keys(ps: Seq<(isize, String)>, i: int, j: int)
    requires
        keys_distinct(ps),
        0 <= i < ps.len(),
        0 <= j < ps.len(),
        i != j,
    ensures
        entries_view(ps)[i].0 != entries_view(ps)[j].0,
{
    if i < j {
        assert(ps[i].0 != ps[j].0);
    } else {
        assert(ps[j].0 != ps[i].0);
    }
}

/// The entries ordered by key.
fn sort_by_key(ps: &[(isize, String)]) -> (r: Vec<(isize, String)>)
    requires
        keys_distinct(ps@),
    ensures
        key_sorted(entries_view(r@)),
        same_entries(entries_view(r@), entries_view(ps@)),
{
    let ghost pv = entries_view(ps@);
    let mut r: Vec<(isize, String)> = Vec::new();
    let mut i: usize = 0;
    while i < ps.len()
        invariant
            0 <= i <= ps@.len(),
            keys_distinct(ps@),
            pv == entries_view(ps@),
            key_sorted(entries_view(r@)),
            same_entries(entries_view(r@), pv.take(i as int)),
        decreases ps@.len() - i,
    {
        let k = ps[i].0;
        let ghost e = pv[i as int];
        let mut pos: usize = 0;
        while pos < r.len() && r[pos].0 < k
            invariant
                0 <= pos <= r@.len(),
                forall|j: int| 0 <= j < pos ==> entries_view(r@)[j].0 < k,
            decreases r@.len() - pos,
        {
            pos += 1;
        }
        let ghost rv = entries_view(r@);
        proof {
            assert forall|j: int| pos <= j < rv.len() implies rv[j].0 > k by {
                assert(rv.contains(rv[j]));
                assert(pv.take(i as int).contains(rv[j]));
                let q = choose|q: int| 0 <= q < i && pv.take(i as int)[q] == rv[j];
                lemma_entries_keys(ps@, q, i as int);
                if j > pos {
                    assert(rv[pos as int].0 < rv[j].0);
                }
            }
        }
        r.insert(pos, (k, ps[i].1.clone()));
        proof {
            let nv = entries_view(r@);
            assert(nv =~= rv.insert(pos as int, e));
            assert(pv.take(i + 1) =~= pv.take(i as int).push(e));
            assert forall|x: (isize, Seq<char>)| nv.contains(x) <==> pv.take(i + 1).contains(x) by {
                if nv.contains(x) {
                    let q = choose|q: int| 0 <= q < nv.len() && nv[q] == x;
                    if q < pos {
                        assert(rv[q] == x);
                        assert(rv.contains(x));
                    } else if q > pos {
                        assert(rv[q - 1] == x);
                        assert(rv.contains(x));
                    } else {
                        assert(pv.take(i + 1)[i as int] == x);
                    }
                }
                if pv.take(i + 1).contains(x) {
                    let pt = pv.take(i + 1);
                    let q = choose|q: int| 0 <= q < pt.len() && pt[q] == x;
                    if q < i {
                        assert(pv.take(i as int)[q] == x);
                        assert(pv.take(i as int).contains(x));
                        let t = choose|t: int| 0 <= t < rv.len() && rv[t] == x;
                        if t < pos {
                            assert(nv[t] == x);
                        } else {
                            assert(nv[t + 1] == x);
                        }
                    } else {
                        assert(nv[pos as int] == x);
                    }
                }
            }
        }
        i += 1;
    }
    proof {
        assert(pv.take(i as int) =~= pv);
    }
    r
}

/// Writes, for each variable bound from outside, the line that captures its
/// entity; the lines follow the variables' numbers.
pub fn generate_invar_captures(result: &mut String, prefills: &[(isize, String)])
    requires
        keys_distinct(prefills@),
    ensures
        final(result)@ == old(result)@ + invar_captures_text(prefills@),
{
    let v = sort_by_key(prefills);
    let ghost o = entries_view(v@);
    proof {
        let c = sorted_entries(entries_view(prefills@));
        assert(orders(entries_view(prefills@))(o));
        assert(orders(entries_view(prefills@))(c));
        assert(key_sorted(c) && same_entries(c, entries_view(prefills@)));
        assert forall|e: (isize, Seq<char>)| c.contains(e) <==> o.contains(e) by {}
        lemma_sorted_unique(c, o);
    }
    let mut i: usize = 0;
    while i < v.len()
        invariant
            0 <= i <= v@.len(),
            o == entries_view(v@),
            result@ == old(result)@ + capture_lines(o.take(i as int)),
        decreases v@.len() - i,
    {
        proof {
            assert(o.take(i + 1).drop_last() =~= o.take(i as int));
            assert(o.take(i + 1).last() == o[i as int]);
        }
        result.append("let invar_");
        push_isize(result, v[i].0);
        result.append(": ::froql::entity_store::Entity = (&");
        result.append(v[i].1.as_str());
        result.append(").into();\n");
        i += 1;
        proof {
            assert(result@ =~= old(result)@ + capture_lines(o.take(i as int)));
        }
    }
    proof {
        assert(o.take(i as int) =~= o);
    }
}

} // verus!
