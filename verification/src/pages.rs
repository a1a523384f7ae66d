//! The per-model listing pages: grouping records by model, sorting each
//! group for display, and naming each page's file and title.

use vstd::prelude::*;
use crate::records::{FirmwareData, sort_key};
use crate::numbers::{is_u64_numeral, u64_numeral_val, digit_part, lemma_digits_val_nonneg};
use crate::text::{title_of, filename_of, model_title, model_filename};
use crate::ordering::string_eq;
use vstd::string::StringExecFns;
use vstd::seq_lib::to_multiset_insert;
use vstd::seq_lib::to_multiset_remove;
use vstd::multiset::Multiset;

verus! {

/// The records of one model, in catalog order.
pub struct ModelGroup<T> {
    pub model: String,
    pub records: Vec<T>,
}

/// The records of `fws` whose model is `m`, in their original order.
pub open spec fn records_for<T: FirmwareData>(fws: Seq<T>, m: Seq<char>) -> Seq<T>
    decreases fws.len(),
{
    if fws.len() == 0 {
        Seq::empty()
    } else {
        let prefix = records_for(fws.drop_last(), m);
        if fws.last().model_spec() == m {
            prefix.push(fws.last())
        } else {
            prefix
        }
    }
}

/// The distinct models of a record list, each at its first occurrence.
pub open spec fn first_models<T: FirmwareData>(fws: Seq<T>) -> Seq<Seq<char>>
    decreases fws.len(),
{
    if fws.len() == 0 {
        Seq::empty()
    } else {
        let prefix = first_models(fws.drop_last());
        if prefix.contains(fws.last().model_spec()) {
            prefix
        } else {
            prefix.push(fws.last().model_spec())
        }
    }
}

/// The model names of a group list, in group order.
pub open spec fn group_models<T: FirmwareData>(gs: Seq<ModelGroup<T>>) -> Seq<Seq<char>> {
    gs.map_values(|g: ModelGroup<T>| g.model@)
}

/// A model stands among the distinct models exactly when some record has
/// it.
proof fn lemma_first_models_contains<T: FirmwareData>(fws: Seq<T>, m: Seq<char>)
    ensures
        first_models(fws).contains(m) <==> exists|i: int|
            0 <= i < fws.len() && (#[trigger] fws[i].model_spec()) == m,
    decreases fws.len(),
{
    if fws.len() > 0 {
        let prefix = first_models(fws.drop_last());
        lemma_first_models_contains(fws.drop_last(), m);
        if first_models(fws).contains(m) {
            if prefix.contains(m) {
                let i = choose|i: int|
                    0 <= i < fws.drop_last().len() && (#[trigger] fws.drop_last()[i].model_spec())
                        == m;
                assert(fws[i].model_spec() == m);
            } else {
                let k = choose|k: int|
                    0 <= k < first_models(fws).len() && first_models(fws)[k] == m;
                if k < prefix.len() {
                    assert(prefix[k] == m);
                    assert(prefix.contains(m));
                    let i = choose|i: int|
                        0 <= i < fws.drop_last().len() && (
                        #[trigger] fws.drop_last()[i].model_spec()) == m;
                    assert(fws[i].model_spec() == m);
                } else {
                    assert(fws[fws.len() - 1].model_spec() == m);
                }
            }
        }
        if exists|i: int| 0 <= i < fws.len() && (#[trigger] fws[i].model_spec()) == m {
            let i = choose|i: int| 0 <= i < fws.len() && (#[trigger] fws[i].model_spec()) == m;
            if i < fws.len() - 1 {
                assert(fws.drop_last()[i].model_spec() == m);
                assert(prefix.contains(m));
                if !first_models(fws).contains(m) {
                    let k = choose|k: int| 0 <= k < prefix.len() && prefix[k] == m;
                    assert(first_models(fws)[k] == m);
                    assert(first_models(fws).contains(m));
                }
            } else {
                if !prefix.contains(m) {
                    assert(first_models(fws)[prefix.len() as int] == m);
                    assert(first_models(fws).contains(m));
                } else {
                    let k = choose|k: int| 0 <= k < prefix.len() && prefix[k] == m;
                    assert(first_models(fws)[k] == m);
                    assert(first_models(fws).contains(m));
                }
            }
        }
    }
}

/// Selecting a model's records commutes with appending a record.
proof fn lemma_records_for_push<T: FirmwareData>(fws: Seq<T>, fw: T, m: Seq<char>)
    ensures
        records_for(fws.push(fw), m) == if fw.model_spec() == m {
            records_for(fws, m).push(fw)
        } else {
            records_for(fws, m)
        },
{
    assert(fws.push(fw).drop_last() =~= fws);
    assert(fws.push(fw).last() == fw);
}

/// A record list in which no record has model `m` holds nothing for it.
proof fn lemma_records_for_none<T: FirmwareData>(fws: Seq<T>, m: Seq<char>)
    requires
        forall|i: int| 0 <= i < fws.len() ==> (#[trigger] fws[i].model_spec()) != m,
    ensures
        records_for(fws, m) =~= Seq::<T>::empty(),
    decreases fws.len(),
{
    if fws.len() > 0 {
        assert(fws.last().model_spec() != m);
        lemma_records_for_none(fws.drop_last(), m);
    }
}

/// Splits a record list into one group per distinct model, in order of
/// first occurrence; each group holds exactly that model's records, in
/// their original order.
pub fn group_by_model<T: FirmwareData>(firmwares: Vec<T>) -> (r: Vec<ModelGroup<T>>)
    ensures
        group_models(r@) == first_models(firmwares@),
        forall|k: int| 0 <= k < r@.len() ==> (#[trigger] r@[k]).records@ == records_for(
            firmwares@,
            r@[k].model@,
        ),
{
    let ghost orig = firmwares@;
    let total = firmwares.len();
    let mut rest = firmwares;
    let mut gs: Vec<ModelGroup<T>> = Vec::new();
    let mut i: usize = 0;
    while rest.len() > 0
        invariant
            0 <= i <= total,
            total == orig.len(),
            rest@ =~= orig.subrange(i as int, orig.len() as int),
            group_models(gs@) == first_models(orig.subrange(0, i as int)),
            forall|k: int| 0 <= k < gs@.len() ==> (#[trigger] gs@[k]).records@ == records_for(
                orig.subrange(0, i as int),
                gs@[k].model@,
            ),
        decreases rest@.len(),
    {
        let ghost pre = orig.subrange(0, i as int);
        let ghost gs0 = gs@;
        let fw = rest.remove(0);
        proof {
            assert(fw == orig[i as int]);
            assert(rest@ =~= orig.subrange(i + 1, orig.len() as int));
            assert(orig.subrange(0, i + 1).drop_last() =~= pre);
            assert(orig.subrange(0, i + 1).last() == fw);
        }
        let ghost mval = fw.model_spec();
        let n = gs.len();
        let mut k: usize = 0;
        let mut found = false;
        while k < n && !found
            invariant
                0 <= k <= n,
                n == gs@.len(),
                gs@ == gs0,
                found ==> k < n && gs@[k as int].model@ == mval,
                !found ==> forall|k2: int| 0 <= k2 < k ==> (#[trigger] gs@[k2]).model@ != mval,
                fw.model_spec() == mval,
            decreases n - k + (if found {
                0int
            } else {
                1int
            }),
        {
            if string_eq(gs[k].model.as_str(), fw.model()) {
                found = true;
            } else {
                k = k + 1;
            }
        }
        if found {
            let mut g = gs.remove(k);
            let ghost grecs = g.records@;
            g.records.push(fw);
            let ghost g2 = g;
            gs.insert(k, g);
            proof {
                gs0.insert_ensures(k as int, g2);
                assert(gs@ =~= gs0.update(k as int, g2));
                assert(group_models(gs@) =~= group_models(gs0));
                assert(first_models(pre).contains(mval)) by {
                    assert(group_models(gs0)[k as int] == mval);
                }
                assert(first_models(orig.subrange(0, i + 1)) == first_models(pre));
                assert forall|kk: int| 0 <= kk < gs@.len() implies (#[trigger] gs@[kk]).records@
                    == records_for(orig.subrange(0, i + 1), gs@[kk].model@) by {
                    lemma_records_for_push(pre, fw, gs@[kk].model@);
                    if kk == k {
                        assert(gs@[kk] == g2);
                        assert(gs@[kk].records@ == grecs.push(fw));
                        assert(gs@[kk].model@ == mval);
                    } else {
                        assert(gs@[kk] == gs0[kk]);
                        assert(gs@[kk].model@ != mval) by {
                            if gs@[kk].model@ == mval {
                                assert(group_models(gs0)[kk] == mval);
                                assert(group_models(gs0)[k as int] == mval);
                                assert(first_models(pre)[kk] == first_models(pre)[k as int]);
                                lemma_first_models_distinct(pre, kk, k as int);
                            }
                        }
                    }
                }
            }
        } else {
            proof {
                assert(k == n);
                assert(!first_models(pre).contains(mval)) by {
                    if first_models(pre).contains(mval) {
                        let idx = choose|idx: int|
                            0 <= idx < first_models(pre).len() && first_models(pre)[idx] == mval;
                        assert(group_models(gs0)[idx] == mval);
                        assert(gs0[idx].model@ == mval);
                    }
                }
            }
            let mname = String::from_str(fw.model());
            let mut rv: Vec<T> = Vec::new();
            rv.push(fw);
            let g = ModelGroup { model: mname, records: rv };
            let ghost gv = g;
            gs.push(g);
            proof {
                assert(gs@ =~= gs0.push(gv));
                assert(first_models(orig.subrange(0, i + 1)) == first_models(pre).push(mval));
                assert(group_models(gs@) =~= first_models(pre).push(mval));
                assert forall|kk: int| 0 <= kk < gs@.len() implies (#[trigger] gs@[kk]).records@
                    == records_for(orig.subrange(0, i + 1), gs@[kk].model@) by {
                    lemma_records_for_push(pre, fw, gs@[kk].model@);
                    if kk == gs@.len() - 1 {
                        assert(gs@[kk] == gv);
                        lemma_first_models_contains(pre, mval);
                        assert forall|q: int| 0 <= q < pre.len() implies (
                        #[trigger] pre[q].model_spec()) != mval by {
                            if pre[q].model_spec() == mval {
                                assert(exists|ii: int|
                                    0 <= ii < pre.len() && (#[trigger] pre[ii].model_spec())
                                        == mval);
                            }
                        }
                        lemma_records_for_none(pre, mval);
                        assert(gs@[kk].records@ =~= records_for(pre, mval).push(fw));
                    } else {
                        assert(gs@[kk] == gs0[kk]);
                        assert(gs@[kk].model@ != mval) by {
                            if gs@[kk].model@ == mval {
                                assert(group_models(gs0)[kk] == mval);
                                assert(gs0[kk].model@ == mval);
                            }
                        }
                    }
                }
            }
        }
        i = i + 1;
    }
    proof {
        assert(orig.subrange(0, orig.len() as int) =~= orig);
    }
    gs
}

/// Two distinct slots of the first-occurrence model list never hold the
/// same model.
proof fn lemma_first_models_distinct<T: FirmwareData>(fws: Seq<T>, k1: int, k2: int)
    requires
        0 <= k1 < first_models(fws).len(),
        0 <= k2 < first_models(fws).len(),
        k1 != k2,
    ensures
        first_models(fws)[k1] != first_models(fws)[k2],
    decreases fws.len(),
{
    if fws.len() > 0 {
        let prefix = first_models(fws.drop_last());
        if k1 < prefix.len() && k2 < prefix.len() {
            lemma_first_models_distinct(fws.drop_last(), k1, k2);
        } else if !prefix.contains(fws.last().model_spec()) {
            if k1 == prefix.len() {
                assert(first_models(fws)[k1] == fws.last().model_spec());
                if first_models(fws)[k2] == fws.last().model_spec() {
                    assert(prefix[k2] == fws.last().model_spec());
                    assert(prefix.contains(fws.last().model_spec()));
                }
            } else {
                assert(first_models(fws)[k2] == fws.last().model_spec());
                if first_models(fws)[k1] == fws.last().model_spec() {
                    assert(prefix[k1] == fws.last().model_spec());
                    assert(prefix.contains(fws.last().model_spec()));
                }
            }
        }
    }
}

/// Where a record goes in a display-sorted list: after every record that
/// ranks at least as high, before the first that ranks lower.
pub open spec fn sorted_insert<T: FirmwareData>(s: Seq<T>, fw: T) -> Seq<T>
    decreases s.len(),
{
    if s.len() == 0 {
        seq![fw]
    } else if sort_key(s.first()) >= sort_key(fw) {
        seq![s.first()] + sorted_insert(s.drop_first(), fw)
    } else {
        seq![fw] + s
    }
}

/// The display order of a group: each record inserted in turn, so records
/// of equal rank keep their catalog order (a stable descending sort).
pub open spec fn display_sorted<T: FirmwareData>(s: Seq<T>) -> Seq<T>
    decreases s.len(),
{
    if s.len() == 0 {
        Seq::empty()
    } else {
        sorted_insert(display_sorted(s.drop_last()), s.last())
    }
}

/// Scanning past every record that ranks at least as high finds the spot
/// the insertion spec names.
proof fn lemma_sorted_insert_at<T: FirmwareData>(s: Seq<T>, fw: T, p: int)
    requires
        0 <= p <= s.len(),
        forall|k: int| 0 <= k < p ==> sort_key(#[trigger] s[k]) >= sort_key(fw),
        p < s.len() ==> sort_key(s[p]) < sort_key(fw),
    ensures
        sorted_insert(s, fw) =~= s.insert(p, fw),
    decreases s.len(),
{
    s.insert_ensures(p, fw);
    if s.len() == 0 {
    } else if sort_key(s.first()) >= sort_key(fw) {
        assert(p > 0) by {
            if p == 0 {
                assert(sort_key(s[0]) < sort_key(fw));
            }
        }
        let t = s.drop_first();
        assert forall|k: int| 0 <= k < p - 1 implies sort_key(#[trigger] t[k]) >= sort_key(
            fw,
        ) by {
            assert(t[k] == s[k + 1]);
        }
        lemma_sorted_insert_at(t, fw, p - 1);
        t.insert_ensures(p - 1, fw);
    } else {
        assert(p == 0);
    }
}

/// The display rank of a record, as executable code.
fn rec_key<T: FirmwareData>(fw: &T) -> (k: u64)
    ensures
        k == sort_key(*fw),
{
    match fw.incremental_as_u64() {
        Some(v) => v,
        None => 0,
    }
}

/// Sorts one group's records for display, highest incremental first; a
/// record whose incremental does not read as a u64 ranks lowest. The
/// result holds exactly the given records.
pub fn sort_records_desc<T: FirmwareData>(records: Vec<T>) -> (r: Vec<T>)
    ensures
        r@ == display_sorted(records@),
        r@.to_multiset() == records@.to_multiset(),
        forall|i: int, j: int| 0 <= i < j < r@.len() ==> sort_key(#[trigger] r@[i]) >= sort_key(
            #[trigger] r@[j],
        ),
{
    broadcast use vstd::seq_lib::group_to_multiset_ensures;
    broadcast use vstd::multiset::group_multiset_axioms;

    let ghost orig = records@;
    let mut rest = records;
    let mut out: Vec<T> = Vec::new();
    proof {
        vstd::seq_lib::to_multiset_len(out@);
        vstd::multiset::lemma_multiset_empty_len(out@.to_multiset());
        assert(out@.to_multiset() =~= Multiset::<T>::empty());
        assert(out@.to_multiset().add(rest@.to_multiset()) =~= orig.to_multiset());
    }
    while rest.len() > 0
        invariant
            rest@.len() <= orig.len(),
            rest@ =~= orig.subrange(orig.len() - rest@.len(), orig.len() as int),
            out@ == display_sorted(orig.subrange(0, orig.len() - rest@.len())),
            out@.to_multiset().add(rest@.to_multiset()) == orig.to_multiset(),
            forall|i: int, j: int| 0 <= i < j < out@.len() ==> sort_key(#[trigger] out@[i])
                >= sort_key(#[trigger] out@[j]),
        decreases rest@.len(),
    {
        let ghost rest0 = rest@;
        let ghost out0 = out@;
        let ghost jj = orig.len() - rest0.len();
        let fw = rest.remove(0);
        proof {
            assert(fw == orig[jj as int]);
            assert(rest@ =~= orig.subrange(jj + 1, orig.len() as int));
        }
        let key = rec_key(&fw);
        let mut p: usize = 0;
        while p < out.len() && rec_key(&out[p]) >= key
            invariant
                0 <= p <= out@.len(),
                out@ == out0,
                key == sort_key(fw),
                forall|k: int| 0 <= k < p ==> sort_key(#[trigger] out@[k]) >= key,
            decreases out@.len() - p,
        {
            p = p + 1;
        }
        let ghost pp = p as int;
        out.insert(p, fw);
        proof {
            lemma_sorted_insert_at(out0, fw, pp);
            assert(out@ == sorted_insert(out0, fw));
            let done = orig.subrange(0, jj + 1);
            assert(done.drop_last() =~= orig.subrange(0, jj as int));
            assert(done.last() == fw);
            assert(out@ == display_sorted(done));
            out0.insert_ensures(pp, fw);
            to_multiset_insert(out0, pp, fw);
            to_multiset_remove(rest0, 0);
            assert(rest0[0] == fw);
            assert(rest0.contains(fw));
            vstd::seq_lib::to_multiset_contains(rest0, fw);
            assert(rest0.to_multiset().count(fw) > 0);
            assert(out@.to_multiset() == out0.to_multiset().insert(fw));
            assert(rest@.to_multiset() == rest0.to_multiset().remove(fw));
            assert(out@.to_multiset().add(rest@.to_multiset()) =~= orig.to_multiset());
            assert forall|i: int, j: int| 0 <= i < j < out@.len() implies sort_key(
                #[trigger] out@[i],
            ) >= sort_key(#[trigger] out@[j]) by {
                if i < pp && j > pp {
                    assert(out@[j] == out0[j - 1]);
                    assert(out@[i] == out0[i]);
                } else if i == pp && j > pp {
                    assert(out@[j] == out0[j - 1]);
                    assert(sort_key(out0[pp]) < key);
                    assert(sort_key(out0[j - 1]) <= sort_key(out0[pp]));
                } else if i > pp {
                    assert(out@[i] == out0[i - 1] && out@[j] == out0[j - 1]);
                }
            }
        }
    }
    proof {
        assert(orig.subrange(0, orig.len() as int) =~= orig);
    }
    out
}

/// A record's display rank is never negative.
proof fn lemma_sort_key_nonneg<T: FirmwareData>(fw: T)
    ensures
        sort_key(fw) >= 0,
{
    if is_u64_numeral(fw.incremental_spec()) {
        lemma_digits_val_nonneg(digit_part(fw.incremental_spec()));
        assert(u64_numeral_val(fw.incremental_spec()) >= 0);
    }
}

/// In a display-sorted list, a record whose incremental does not read as
/// a u64 is followed only by records of rank zero: every record that
/// ranks above zero stands before it.
pub proof fn lemma_unparsable_last<T: FirmwareData>(r: Seq<T>, i: int, j: int)
    requires
        forall|u: int, v: int| 0 <= u < v < r.len() ==> sort_key(#[trigger] r[u]) >= sort_key(
            #[trigger] r[v],
        ),
        0 <= i < j < r.len(),
        !is_u64_numeral(r[i].incremental_spec()),
    ensures
        sort_key(r[j]) == 0,
{
    lemma_sort_key_nonneg(r[j]);
    assert(sort_key(r[i]) >= sort_key(r[j]));
}

/// One listing page, ready for the template engine: the model, the page
/// title and filename derived from it, and the records sorted for
/// display.
pub struct PreparedPage<T> {
    pub model: String,
    pub title: String,
    pub filename: String,
    pub records: Vec<T>,
}

/// Turns a record list into one prepared page per distinct model: groups
/// the records by model, sorts each group for display, and derives each
/// page's title and filename from its model name.
pub fn prepare_model_pages<T: FirmwareData>(firmwares: Vec<T>) -> (r: Vec<PreparedPage<T>>)
    ensures
        r@.len() == first_models(firmwares@).len(),
        forall|k: int| 0 <= k < r@.len() ==> {
            let m = first_models(firmwares@)[k];
            &&& (#[trigger] r@[k]).model@ == m
            &&& r@[k].title@ == title_of(m)
            &&& r@[k].filename@ == filename_of(m)
            &&& r@[k].records@ == display_sorted(records_for(firmwares@, m))
            &&& r@[k].records@.to_multiset() == records_for(firmwares@, m).to_multiset()
            &&& forall|u: int, v: int| 0 <= u < v < r@[k].records@.len() ==> sort_key(
                #[trigger] r@[k].records@[u],
            ) >= sort_key(#[trigger] r@[k].records@[v])
        },
{
    let ghost all = firmwares@;
    let mut groups = group_by_model(firmwares);
    let ghost gseq = groups@;
    let gtotal = groups.len();
    let mut out: Vec<PreparedPage<T>> = Vec::new();
    let mut i: usize = 0;
    while groups.len() > 0
        invariant
            0 <= i <= gtotal,
            gtotal == gseq.len(),
            groups@ =~= gseq.subrange(i as int, gseq.len() as int),
            group_models(gseq) == first_models(all),
            forall|k: int| 0 <= k < gseq.len() ==> (#[trigger] gseq[k]).records@ == records_for(
                all,
                gseq[k].model@,
            ),
            out@.len() == i,
            forall|k: int| 0 <= k < i ==> {
                let m = first_models(all)[k];
                &&& (#[trigger] out@[k]).model@ == m
                &&& out@[k].title@ == title_of(m)
                &&& out@[k].filename@ == filename_of(m)
                &&& out@[k].records@ == display_sorted(records_for(all, m))
                &&& out@[k].records@.to_multiset() == records_for(all, m).to_multiset()
                &&& forall|u: int, v: int| 0 <= u < v < out@[k].records@.len() ==> sort_key(
                    #[trigger] out@[k].records@[u],
                ) >= sort_key(#[trigger] out@[k].records@[v])
            },
        decreases groups@.len(),
    {
        let g = groups.remove(0);
        proof {
            assert(g == gseq[i as int]);
            assert(groups@ =~= gseq.subrange(i + 1, gseq.len() as int));
            assert(group_models(gseq)[i as int] == g.model@);
        }
        let title = model_title(g.model.as_str());
        let filename = model_filename(g.model.as_str());
        let records = sort_records_desc(g.records);
        out.push(PreparedPage { model: g.model, title, filename, records });
        i = i + 1;
    }
    out
}

} // verus!
