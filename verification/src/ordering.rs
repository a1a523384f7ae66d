//! Ordering of the distinct model identifiers of a family: models named in
//! the curated priority list come first, in list order; the rest follow in
//! lexicographic order.

use vstd::prelude::*;
use crate::records::FirmwareData;
use crate::text::views_of;
use vstd::string::StringExecFns;

verus! {

/// Lexicographic order on character sequences, by code point.
pub open spec fn lex_lt(a: Seq<char>, b: Seq<char>) -> bool
    decreases a.len(),
{
    if b.len() == 0 {
        false
    } else if a.len() == 0 {
        true
    } else if (a[0] as int) < (b[0] as int) {
        true
    } else if a[0] == b[0] {
        lex_lt(a.drop_first(), b.drop_first())
    } else {
        false
    }
}

proof fn lemma_lex_irreflexive(a: Seq<char>)
    ensures
        !lex_lt(a, a),
    decreases a.len(),
{
    if a.len() > 0 {
        lemma_lex_irreflexive(a.drop_first());
    }
}

proof fn lemma_lex_connex(a: Seq<char>, b: Seq<char>)
    ensures
        lex_lt(a, b) || lex_lt(b, a) || a == b,
    decreases a.len(),
{
    if a.len() == 0 && b.len() == 0 {
        assert(a =~= b);
    } else if a.len() > 0 && b.len() > 0 {
        if a[0] == b[0] {
            lemma_lex_connex(a.drop_first(), b.drop_first());
            if !lex_lt(a, b) && !lex_lt(b, a) {
                assert(a.drop_first() == b.drop_first());
                assert forall|x: int| 0 <= x < a.len() implies a[x] == b[x] by {
                    if x > 0 {
                        assert(a.drop_first()[x - 1] == a[x]);
                        assert(b.drop_first()[x - 1] == b[x]);
                    }
                }
                assert(a =~= b);
            }
        }
    }
}

proof fn lemma_lex_trans(a: Seq<char>, b: Seq<char>, c: Seq<char>)
    requires
        lex_lt(a, b),
        lex_lt(b, c),
    ensures
        lex_lt(a, c),
    decreases a.len(),
{
    if a.len() == 0 {
    } else {
        if (a[0] as int) < (b[0] as int) {
            assert((b[0] as int) <= (c[0] as int));
        } else {
            assert(a[0] == b[0]);
            if b[0] == c[0] {
                lemma_lex_trans(a.drop_first(), b.drop_first(), c.drop_first());
            }
        }
    }
}

/// The rank of `m` in the priority list: the index of its first
/// occurrence, or the list's length if it does not occur.
pub open spec fn position_in(order: Seq<Seq<char>>, m: Seq<char>) -> int
    decreases order.len(),
{
    if order.len() == 0 {
        0
    } else if order[0] == m {
        0
    } else {
        1 + position_in(order.drop_first(), m)
    }
}

proof fn lemma_position_bounds(order: Seq<Seq<char>>, m: Seq<char>)
    ensures
        0 <= position_in(order, m) <= order.len(),
        position_in(order, m) < order.len() <==> order.contains(m),
        position_in(order, m) < order.len() ==> order[position_in(order, m)] == m,
    decreases order.len(),
{
    if order.len() > 0 && order[0] != m {
        let rest = order.drop_first();
        lemma_position_bounds(rest, m);
        if rest.contains(m) {
            let k = choose|k: int| 0 <= k < rest.len() && rest[k] == m;
            assert(order[k + 1] == m);
        }
        if order.contains(m) {
            let k = choose|k: int| 0 <= k < order.len() && order[k] == m;
            assert(rest[k - 1] == m);
        }
    }
}

/// The order the sorted model lists obey: rank in the priority list first,
/// lexicographic order among models of equal rank (in particular among all
/// models absent from the list).
pub open spec fn model_lt(order: Seq<Seq<char>>, a: Seq<char>, b: Seq<char>) -> bool {
    ||| position_in(order, a) < position_in(order, b)
    ||| (position_in(order, a) == position_in(order, b) && lex_lt(a, b))
}

proof fn lemma_model_lt_irreflexive(order: Seq<Seq<char>>, a: Seq<char>)
    ensures
        !model_lt(order, a, a),
{
    lemma_lex_irreflexive(a);
}

proof fn lemma_model_lt_connex(order: Seq<Seq<char>>, a: Seq<char>, b: Seq<char>)
    ensures
        model_lt(order, a, b) || model_lt(order, b, a) || a == b,
{
    lemma_lex_connex(a, b);
}

proof fn lemma_model_lt_trans(order: Seq<Seq<char>>, a: Seq<char>, b: Seq<char>, c: Seq<char>)
    requires
        model_lt(order, a, b),
        model_lt(order, b, c),
    ensures
        model_lt(order, a, c),
{
    if position_in(order, a) == position_in(order, b) && position_in(order, b) == position_in(
        order,
        c,
    ) {
        lemma_lex_trans(a, b, c);
    }
}

/// Whether `ms` is in strictly ascending model order.
pub open spec fn strictly_ordered(ms: Seq<Seq<char>>, order: Seq<Seq<char>>) -> bool {
    forall|i: int, j: int| 0 <= i < j < ms.len() ==> model_lt(order, ms[i], ms[j])
}

/// What the model ordering produces: the distinct models of the input,
/// strictly sorted by rank and then lexicographically.
pub open spec fn is_model_ordering(
    input: Seq<Seq<char>>,
    out: Seq<Seq<char>>,
    order: Seq<Seq<char>>,
) -> bool {
    &&& strictly_ordered(out, order)
    &&& forall|m: Seq<char>|
        #![trigger out.contains(m)]
        #![trigger input.contains(m)]
        out.contains(m) <==> input.contains(m)
}

/// Compares two strings lexicographically by code point.
pub fn str_lt(a: &str, b: &str) -> (r: bool)
    ensures
        r == lex_lt(a@, b@),
{
    let na = a.unicode_len();
    let nb = b.unicode_len();
    let mut i: usize = 0;
    proof {
        assert(a@.subrange(0, na as int) =~= a@);
        assert(b@.subrange(0, nb as int) =~= b@);
    }
    while i < na && i < nb
        invariant
            0 <= i <= na,
            0 <= i <= nb,
            na == a@.len(),
            nb == b@.len(),
            lex_lt(a@, b@) == lex_lt(
                a@.subrange(i as int, na as int),
                b@.subrange(i as int, nb as int),
            ),
        decreases na - i,
    {
        let ca = a.get_char(i);
        let cb = b.get_char(i);
        let ghost x = a@.subrange(i as int, na as int);
        let ghost y = b@.subrange(i as int, nb as int);
        if (ca as u32) < (cb as u32) {
            proof {
                assert((x[0] as int) < (y[0] as int));
            }
            return true;
        }
        if (cb as u32) < (ca as u32) {
            proof {
                assert((y[0] as int) < (x[0] as int));
                assert(!lex_lt(x, y));
            }
            return false;
        }
        proof {
            assert(x[0] == y[0]);
            assert(x.drop_first() =~= a@.subrange(i + 1, na as int));
            assert(y.drop_first() =~= b@.subrange(i + 1, nb as int));
        }
        i = i + 1;
    }
    proof {
        assert(a@.subrange(0, na as int) =~= a@);
        assert(b@.subrange(0, nb as int) =~= b@);
    }
    if i < nb {
        proof {
            assert(a@.subrange(i as int, na as int).len() == 0);
            assert(b@.subrange(i as int, nb as int).len() > 0);
        }
        true
    } else {
        proof {
            assert(b@.subrange(i as int, nb as int).len() == 0);
        }
        false
    }
}

/// Compares two strings for equality, character by character.
pub fn string_eq(a: &str, b: &str) -> (r: bool)
    ensures
        r == (a@ == b@),
{
    let na = a.unicode_len();
    let nb = b.unicode_len();
    if na != nb {
        return false;
    }
    let mut i: usize = 0;
    while i < na
        invariant
            0 <= i <= na,
            na == a@.len(),
            na == b@.len(),
            forall|k: int| 0 <= k < i ==> a@[k] == b@[k],
        decreases na - i,
    {
        if a.get_char(i) != b.get_char(i) {
            return false;
        }
        i = i + 1;
    }
    proof {
        assert(a@ =~= b@);
    }
    true
}

/// The rank of `m` in the priority list, by scan.
fn position_of(order: &Vec<String>, m: &str) -> (r: usize)
    ensures
        r == position_in(views_of(order@), m@),
{
    let n = order.len();
    let mut i: usize = 0;
    while i < n
        invariant
            0 <= i <= n,
            n == order@.len(),
            forall|k: int| 0 <= k < i ==> views_of(order@)[k] != m@,
        decreases n - i,
    {
        if string_eq(order[i].as_str(), m) {
            proof {
                lemma_position_from_scan(views_of(order@), m@, i as int);
            }
            return i;
        }
        i = i + 1;
    }
    proof {
        lemma_position_from_scan(views_of(order@), m@, n as int);
    }
    n
}

/// A scan that found no hit before `i`, and a hit at `i` if `i` is in
/// range, pins the position down.
proof fn lemma_position_from_scan(order: Seq<Seq<char>>, m: Seq<char>, i: int)
    requires
        0 <= i <= order.len(),
        forall|k: int| 0 <= k < i ==> order[k] != m,
        i < order.len() ==> order[i] == m,
    ensures
        position_in(order, m) == i,
    decreases i,
{
    if i == 0 {
    } else {
        let rest = order.drop_first();
        assert(order[0] != m);
        lemma_position_from_scan(rest, m, i - 1);
    }
}

/// Compares two models in the navigation order.
pub fn model_lt_exec(order: &Vec<String>, a: &str, b: &str) -> (r: bool)
    ensures
        r == model_lt(views_of(order@), a@, b@),
{
    let pa = position_of(order, a);
    let pb = position_of(order, b);
    if pa < pb {
        true
    } else if pa == pb {
        str_lt(a, b)
    } else {
        false
    }
}

/// An insertion keeps every element, and adds the new one.
proof fn lemma_insert_contains<A>(s: Seq<A>, p: int, x: A)
    requires
        0 <= p <= s.len(),
    ensures
        forall|y: A| #[trigger] s.insert(p, x).contains(y) <==> (s.contains(y) || y == x),
{
    let t = s.insert(p, x);
    s.insert_ensures(p, x);
    assert forall|y: A| #[trigger] t.contains(y) implies s.contains(y) || y == x by {
        let idx = choose|idx: int| 0 <= idx < t.len() && t[idx] == y;
        if idx < p {
            assert(s[idx] == y);
        } else if idx > p {
            assert(t[(idx - 1) + 1] == s[idx - 1]);
            assert(s[idx - 1] == y);
        }
    }
    assert forall|y: A| s.contains(y) || y == x implies #[trigger] t.contains(y) by {
        if s.contains(y) {
            let idx = choose|idx: int| 0 <= idx < s.len() && s[idx] == y;
            if idx < p {
                assert(t[idx] == y);
            } else {
                assert(t[idx + 1] == y);
            }
        } else {
            assert(t[p] == y);
        }
    }
}

/// Mapping to views commutes with insertion.
proof fn lemma_views_insert(ss: Seq<String>, p: int, x: String)
    requires
        0 <= p <= ss.len(),
    ensures
        views_of(ss.insert(p, x)) =~= views_of(ss).insert(p, x@),
{
    ss.insert_ensures(p, x);
    views_of(ss).insert_ensures(p, x@);
}

/// Inserting between the smaller and the larger elements keeps the list
/// strictly ordered.
proof fn lemma_strict_insert(
    vs: Seq<Seq<char>>,
    order: Seq<Seq<char>>,
    p: int,
    m: Seq<char>,
)
    requires
        strictly_ordered(vs, order),
        0 <= p <= vs.len(),
        forall|k: int| 0 <= k < p ==> model_lt(order, #[trigger] vs[k], m),
        forall|k: int| p <= k < vs.len() ==> model_lt(order, m, #[trigger] vs[k]),
    ensures
        strictly_ordered(vs.insert(p, m), order),
{
    let t = vs.insert(p, m);
    vs.insert_ensures(p, m);
    assert forall|u: int, v: int| 0 <= u < v < t.len() implies model_lt(order, t[u], t[v]) by {
        if u < p && v < p {
            assert(t[u] == vs[u] && t[v] == vs[v]);
        } else if u < p && v == p {
            assert(t[u] == vs[u]);
        } else if u < p && v > p {
            assert(t[u] == vs[u] && t[v] == vs[v - 1]);
        } else if u == p && v > p {
            assert(t[v] == vs[v - 1]);
        } else if u > p && v > p {
            assert(t[u] == vs[u - 1] && t[v] == vs[v - 1]);
        }
    }
}

/// Sorts the given model names into the navigation order, dropping
/// duplicates: the result holds exactly the distinct names of the input,
/// in strictly ascending model order.
pub fn sort_models(models: &Vec<String>, order: &Vec<String>) -> (r: Vec<String>)
    ensures
        is_model_ordering(views_of(models@), views_of(r@), views_of(order@)),
{
    let ghost ovs = views_of(order@);
    let mut out: Vec<String> = Vec::new();
    let n = models.len();
    let mut i: usize = 0;
    while i < n
        invariant
            0 <= i <= n,
            n == models@.len(),
            ovs == views_of(order@),
            strictly_ordered(views_of(out@), ovs),
            forall|m: Seq<char>|
                #![trigger views_of(out@).contains(m)]
                #![trigger views_of(models@.subrange(0, i as int)).contains(m)]
                views_of(out@).contains(m) <==> views_of(models@.subrange(0, i as int)).contains(
                    m,
                ),
        decreases n - i,
    {
        let m = models[i].clone();
        let ghost mv = m@;
        let ghost pre = views_of(out@);
        let mut p: usize = 0;
        while p < out.len() && model_lt_exec(order, out[p].as_str(), m.as_str())
            invariant
                0 <= p <= out@.len(),
                ovs == views_of(order@),
                views_of(out@) == pre,
                m@ == mv,
                forall|k: int| 0 <= k < p ==> model_lt(ovs, #[trigger] views_of(out@)[k], mv),
            decreases out@.len() - p,
        {
            p = p + 1;
        }
        let dup = p < out.len() && string_eq(out[p].as_str(), m.as_str());
        if !dup {
            proof {
                if p < pre.len() {
                    lemma_model_lt_connex(ovs, pre[p as int], mv);
                }
                assert forall|k: int| p <= k < pre.len() implies model_lt(
                    ovs,
                    mv,
                    #[trigger] pre[k],
                ) by {
                    if k > p {
                        lemma_model_lt_trans(ovs, mv, pre[p as int], pre[k]);
                    }
                }
                lemma_strict_insert(pre, ovs, p as int, mv);
                lemma_views_insert(out@, p as int, m);
                lemma_insert_contains(pre, p as int, mv);
            }
            out.insert(p, m);
        }
        proof {
            let prefix1 = views_of(models@.subrange(0, i + 1));
            let prefix0 = views_of(models@.subrange(0, i as int));
            assert(prefix1 =~= prefix0.push(mv));
            lemma_insert_contains(prefix0, prefix0.len() as int, mv);
            assert(prefix0.insert(prefix0.len() as int, mv) =~= prefix1);
            let cur = views_of(out@);
            if dup {
                assert(pre[p as int] == mv);
                assert(pre.contains(mv));
                assert(cur == pre);
            } else {
                assert(cur == pre.insert(p as int, mv));
            }
            assert forall|mm: Seq<char>| cur.contains(mm) implies prefix1.contains(mm) by {
                if dup {
                    assert(pre.contains(mm));
                } else {
                    assert(pre.contains(mm) || mm == mv);
                }
                assert(prefix0.contains(mm) || mm == mv);
                assert(prefix0.insert(prefix0.len() as int, mv).contains(mm));
            }
            assert forall|mm: Seq<char>| prefix1.contains(mm) implies cur.contains(mm) by {
                assert(prefix0.insert(prefix0.len() as int, mv).contains(mm));
                assert(prefix0.contains(mm) || mm == mv);
                if mm == mv {
                    if dup {
                        assert(cur.contains(mm));
                    } else {
                        assert(cur == pre.insert(p as int, mv));
                        assert(cur.contains(mm));
                    }
                } else {
                    assert(pre.contains(mm));
                    assert(cur.contains(mm));
                }
            }
        }
        i = i + 1;
    }
    proof {
        assert(models@.subrange(0, n as int) =~= models@);
    }
    out
}

/// The model identifiers of a record list, in source order.
pub open spec fn models_of<T: FirmwareData>(fws: Seq<T>) -> Seq<Seq<char>> {
    fws.map_values(|fw: T| fw.model_spec())
}

/// Collects the distinct models of a record list and sorts them into the
/// navigation order.
pub fn get_and_sort_models<T: FirmwareData>(firmwares: &Vec<T>, order: &Vec<String>) -> (r: Vec<
    String,
>)
    ensures
        is_model_ordering(models_of(firmwares@), views_of(r@), views_of(order@)),
{
    let mut ms: Vec<String> = Vec::new();
    let n = firmwares.len();
    let mut i: usize = 0;
    while i < n
        invariant
            0 <= i <= n,
            n == firmwares@.len(),
            views_of(ms@) =~= models_of(firmwares@).subrange(0, i as int),
        decreases n - i,
    {
        let fwr = &firmwares[i];
        let s = String::from_str(fwr.model());
        let ghost ms0 = ms@;
        ms.push(s);
        proof {
            let mo = models_of(firmwares@);
            assert(views_of(ms0).len() == ms0.len());
            assert(ms0.len() == i as int);
            assert(ms@ == ms0.push(s));
            assert forall|k: int| 0 <= k < i + 1 implies views_of(ms@)[k] == mo.subrange(
                0,
                i + 1,
            )[k] by {
                if k < i {
                    assert(ms@[k] == ms0[k]);
                    assert(views_of(ms0)[k] == mo.subrange(0, i as int)[k]);
                }
            }
            assert(views_of(ms@) =~= mo.subrange(0, i + 1));
        }
        i = i + 1;
    }
    proof {
        assert(models_of(firmwares@).subrange(0, n as int) =~= models_of(firmwares@));
        assert(views_of(ms@) == models_of(firmwares@));
    }
    sort_models(&ms, order)
}

/// Re-sorting an already-sorted model list gives the same list back:
/// the ordering is determined by the set of distinct models alone.
pub proof fn lemma_model_ordering_idempotent(
    input: Seq<Seq<char>>,
    r1: Seq<Seq<char>>,
    r2: Seq<Seq<char>>,
    order: Seq<Seq<char>>,
)
    requires
        is_model_ordering(input, r1, order),
        is_model_ordering(r1, r2, order),
    ensures
        r2 == r1,
{
    lemma_model_ordering_unique(r2, r1, order);
}

/// The ordering contract pins its output: any two lists that both stand
/// in model order for one input are the same list, so a second run on
/// equal inputs yields an identical navigation order.
pub proof fn lemma_model_ordering_functional(
    input: Seq<Seq<char>>,
    r1: Seq<Seq<char>>,
    r2: Seq<Seq<char>>,
    order: Seq<Seq<char>>,
)
    requires
        is_model_ordering(input, r1, order),
        is_model_ordering(input, r2, order),
    ensures
        r1 == r2,
{
    lemma_model_ordering_unique(r1, r2, order);
}

/// Two strictly ordered lists with the same members are the same list.
proof fn lemma_model_ordering_unique(a: Seq<Seq<char>>, b: Seq<Seq<char>>, order: Seq<Seq<char>>)
    requires
        strictly_ordered(a, order),
        strictly_ordered(b, order),
        forall|m: Seq<char>|
            #![trigger a.contains(m)]
            #![trigger b.contains(m)]
            a.contains(m) <==> b.contains(m),
    ensures
        a == b,
    decreases a.len(),
{
    if a.len() == 0 {
        if b.len() > 0 {
            assert(b.contains(b[0]));
        }
        assert(a =~= b);
    } else {
        assert(a.contains(a[0]));
        let k = choose|k: int| 0 <= k < b.len() && b[k] == a[0];
        assert(b.contains(b[0]));
        let l = choose|l: int| 0 <= l < a.len() && a[l] == b[0];
        if k > 0 && l > 0 {
            assert(model_lt(order, b[0], b[k]));
            assert(model_lt(order, a[0], a[l]));
            lemma_model_lt_trans(order, a[0], b[0], a[0]);
            lemma_model_lt_irreflexive(order, a[0]);
            assert(false);
        }
        assert(a[0] == b[0]);
        let at = a.drop_first();
        let bt = b.drop_first();
        assert forall|u: int, v: int| 0 <= u < v < at.len() implies model_lt(
            order,
            at[u],
            at[v],
        ) by {
            assert(at[u] == a[u + 1] && at[v] == a[v + 1]);
        }
        assert forall|u: int, v: int| 0 <= u < v < bt.len() implies model_lt(
            order,
            bt[u],
            bt[v],
        ) by {
            assert(bt[u] == b[u + 1] && bt[v] == b[v + 1]);
        }
        assert forall|m: Seq<char>| #[trigger] at.contains(m) implies bt.contains(m) by {
            lemma_tail_contains(a, b, order, m);
        }
        assert forall|m: Seq<char>| #[trigger] bt.contains(m) implies at.contains(m) by {
            lemma_tail_contains(b, a, order, m);
        }
        lemma_model_ordering_unique(at, bt, order);
        assert(at =~= bt);
        assert forall|x: int| 0 <= x < a.len() implies a[x] == b[x] by {
            if x > 0 {
                assert(at[x - 1] == a[x]);
                assert(bt[x - 1] == b[x]);
            }
        }
        assert(a =~= b);
    }
}

/// A member of a strictly ordered list's tail is a member of the other
/// list's tail too, given the lists share members and heads.
proof fn lemma_tail_contains(a: Seq<Seq<char>>, b: Seq<Seq<char>>, order: Seq<Seq<char>>, m: Seq<
    char,
>)
    requires
        strictly_ordered(a, order),
        strictly_ordered(b, order),
        a.len() > 0,
        b.len() > 0,
        a[0] == b[0],
        forall|mm: Seq<char>|
            #![trigger a.contains(mm)]
            #![trigger b.contains(mm)]
            a.contains(mm) <==> b.contains(mm),
        a.drop_first().contains(m),
    ensures
        b.drop_first().contains(m),
{
    let at = a.drop_first();
    let bt = b.drop_first();
    let i = choose|i: int| 0 <= i < at.len() && at[i] == m;
    assert(a[i + 1] == m);
    assert(a.contains(m));
    if m == a[0] {
        assert(model_lt(order, a[0], a[i + 1]));
        lemma_model_lt_irreflexive(order, a[0]);
        assert(false);
    }
    let k = choose|k: int| 0 <= k < b.len() && b[k] == m;
    if k == 0 {
        assert(false);
    }
    assert(bt[k - 1] == m);
    assert(bt.contains(m));
}

/// In a strictly ordered list, every model named in the priority list
/// stands before every model that is not, and the unlisted models stand in
/// lexicographic order among themselves.
pub proof fn lemma_unknown_models_trail(
    out: Seq<Seq<char>>,
    order: Seq<Seq<char>>,
    i: int,
    j: int,
)
    requires
        strictly_ordered(out, order),
        0 <= i < j < out.len(),
    ensures
        !order.contains(out[i]) ==> !order.contains(out[j]),
        !order.contains(out[i]) && !order.contains(out[j]) ==> lex_lt(out[i], out[j]),
{
    lemma_position_bounds(order, out[i]);
    lemma_position_bounds(order, out[j]);
    assert(model_lt(order, out[i], out[j]));
}

} // verus!
