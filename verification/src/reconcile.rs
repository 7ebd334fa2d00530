//! The reconciliation engine's per-bucket logic: rendered forms of column and
//! index facts, the occurrence tally over rendered forms, and the majority
//! (baseline) selection with the absence rule.
//!
//! Ties in the tally are broken deterministically: the form that first entered
//! the tally (first appearance in the order the forms are tallied) wins.

use vstd::prelude::*;
use vstd::string::StringExecFns;

use crate::models::{index_in_deploy, ColumnInfo, Deploy, IndexInfo};
use crate::text::{str_eq, trim_chars, trimmed};

verus! {

/// The rendered form of one column fact:
/// `column_type [" NULL" if nullable] [" " default]`, trimmed.
pub open spec fn column_render(c: ColumnInfo) -> Seq<char> {
    trimmed(
        c.column_type@ + (if c.nullable@ == "YES"@ {
            " NULL"@
        } else {
            Seq::<char>::empty()
        }) + " "@ + (match c.default_value {
            Some(d) => d@,
            None => Seq::<char>::empty(),
        }),
    )
}

/// Renders one column fact for comparison and display.
pub fn column_format(item: &ColumnInfo) -> (r: String)
    ensures
        r@ == column_render(*item),
{
    let mut s = String::new();
    s.append(item.column_type.as_str());
    if str_eq(item.nullable.as_str(), "YES") {
        s.append(" NULL");
    }
    s.append(" ");
    match &item.default_value {
        Some(d) => s.append(d.as_str()),
        None => {},
    }
    proof {
        assert(s@ =~= item.column_type@ + (if item.nullable@ == "YES"@ {
            " NULL"@
        } else {
            Seq::<char>::empty()
        }) + " "@ + (match item.default_value {
            Some(d) => d@,
            None => Seq::<char>::empty(),
        }));
    }
    trim_chars(s.as_str())
}

/// The ghost value of a tally: each distinct rendered form with its count.
pub open spec fn pairs_view(ps: Seq<(String, usize)>) -> Seq<(Seq<char>, int)> {
    ps.map_values(|p: (String, usize)| (p.0@, p.1 as int))
}

/// One tally step: the count of `f` goes up by one; a form not yet seen is
/// appended with count one.
pub open spec fn bump(pairs: Seq<(Seq<char>, int)>, f: Seq<char>) -> Seq<(Seq<char>, int)>
    decreases pairs.len(),
{
    if pairs.len() == 0 {
        seq![(f, 1int)]
    } else if pairs[0].0 == f {
        seq![(pairs[0].0, pairs[0].1 + 1)] + pairs.drop_first()
    } else {
        seq![pairs[0]] + bump(pairs.drop_first(), f)
    }
}

/// The tally of a sequence of rendered forms: distinct forms in order of
/// first appearance, each with its number of occurrences.
pub open spec fn tally(forms: Seq<Seq<char>>) -> Seq<(Seq<char>, int)>
    decreases forms.len(),
{
    if forms.len() == 0 {
        Seq::empty()
    } else {
        bump(tally(forms.drop_last()), forms.last())
    }
}

proof fn lemma_bump_at(pairs: Seq<(Seq<char>, int)>, f: Seq<char>, k: int)
    requires
        0 <= k <= pairs.len(),
        forall|m: int| 0 <= m < k ==> (#[trigger] pairs[m]).0 != f,
        k == pairs.len() || pairs[k].0 == f,
    ensures
        bump(pairs, f) == (if k < pairs.len() {
            pairs.update(k, (pairs[k].0, pairs[k].1 + 1))
        } else {
            pairs.push((f, 1int))
        }),
    decreases k,
{
    if pairs.len() == 0 {
        assert(bump(pairs, f) =~= pairs.push((f, 1int)));
    } else if k == 0 {
        assert(pairs[0].0 == f);
        assert(bump(pairs, f) =~= pairs.update(0, (pairs[0].0, pairs[0].1 + 1)));
    } else {
        lemma_bump_at(pairs.drop_first(), f, k - 1);
        if k < pairs.len() {
            assert(seq![pairs[0]] + pairs.drop_first().update(k - 1, (pairs[k].0, pairs[k].1 + 1))
                =~= pairs.update(k, (pairs[k].0, pairs[k].1 + 1)));
        } else {
            assert(seq![pairs[0]] + pairs.drop_first().push((f, 1int)) =~= pairs.push((f, 1int)));
        }
    }
}

/// Records one more occurrence of the form `f` in the running tally.
fn bump_tally(pairs: &mut Vec<(String, usize)>, f: String, Ghost(b): Ghost<int>)
    requires
        0 <= b < usize::MAX,
        forall|m: int| 0 <= m < old(pairs)@.len() ==> (#[trigger] old(pairs)@[m]).1 <= b,
    ensures
        pairs_view(final(pairs)@) == bump(pairs_view(old(pairs)@), f@),
        forall|m: int| 0 <= m < final(pairs)@.len() ==> (#[trigger] final(pairs)@[m]).1 <= b + 1,
{
    let mut k: usize = 0;
    while k < pairs.len() && !str_eq(pairs[k].0.as_str(), f.as_str())
        invariant
            k <= pairs@.len(),
            forall|m: int| 0 <= m < k ==> (#[trigger] pairs@[m]).0@ != f@,
            pairs@ == old(pairs)@,
        decreases pairs@.len() - k,
    {
        k = k + 1;
    }
    proof {
        assert(forall|m: int|
            0 <= m < k ==> (#[trigger] pairs_view(pairs@)[m]).0 != f@);
        lemma_bump_at(pairs_view(pairs@), f@, k as int);
    }
    let ghost prev = pairs@;
    if k < pairs.len() {
        let mut entry = pairs.remove(k);
        entry.1 = entry.1 + 1;
        pairs.insert(k, entry);
        proof {
            assert(pairs@ =~= prev.update(k as int, (prev[k as int].0, entry.1)));
            assert(pairs_view(pairs@) =~= pairs_view(prev).update(
                k as int,
                (prev[k as int].0@, prev[k as int].1 + 1),
            ));
            assert forall|m: int| 0 <= m < pairs@.len() implies (#[trigger] pairs@[m]).1 <= b
                + 1 by {
                if m != k {
                    assert(pairs@[m] == prev[m]);
                }
            }
        }
    } else {
        pairs.push((f, 1));
        proof {
            assert(pairs_view(pairs@) =~= pairs_view(prev).push((f@, 1int)));
            assert forall|m: int| 0 <= m < pairs@.len() implies (#[trigger] pairs@[m]).1 <= b
                + 1 by {
                if m < prev.len() {
                    assert(pairs@[m] == prev[m]);
                }
            }
        }
    }
}

/// The winning (form, count) of a tally: the highest count, the earliest
/// entry winning ties. An empty tally yields the empty form with count zero.
pub open spec fn best_of(pairs: Seq<(Seq<char>, int)>) -> (Seq<char>, int)
    decreases pairs.len(),
{
    if pairs.len() == 0 {
        (Seq::empty(), 0)
    } else {
        let prev = best_of(pairs.drop_last());
        if pairs.last().1 > prev.1 {
            pairs.last()
        } else {
            prev
        }
    }
}

/// The baseline of a bucket: the winning rendered form, unless the absent
/// cells (`deploy_count - value_count`) outnumber it, in which case absence
/// itself is the expected answer and the baseline is empty.
pub open spec fn select_baseline(
    pairs: Seq<(Seq<char>, int)>,
    value_count: int,
    deploy_count: int,
) -> Seq<char> {
    if deploy_count - value_count > best_of(pairs).1 {
        Seq::empty()
    } else {
        best_of(pairs).0
    }
}

/// Picks the baseline from a finished tally. `value_count` is the number of
/// values the tally ran over, `deploy_count` the size of the deployment
/// registry; their difference is the number of cells with no value.
pub fn select_max_one(counted: &Vec<(String, usize)>, value_count: usize, deploy_count: usize) -> (r:
    String)
    ensures
        r@ == select_baseline(pairs_view(counted@), value_count as int, deploy_count as int),
{
    let ghost pv = pairs_view(counted@);
    let mut result: String = String::new();
    let mut count: usize = 0;
    let mut k: usize = 0;
    proof {
        assert(pv.take(0) =~= Seq::<(Seq<char>, int)>::empty());
    }
    while k < counted.len()
        invariant
            k <= counted@.len(),
            pv == pairs_view(counted@),
            (result@, count as int) == best_of(pv.take(k as int)),
        decreases counted@.len() - k,
    {
        proof {
            assert(pv.take(k + 1).drop_last() =~= pv.take(k as int));
            assert(pv.take(k + 1).last() == (counted@[k as int].0@, counted@[k as int].1 as int));
        }
        if counted[k].1 > count {
            result = counted[k].0.clone();
            count = counted[k].1;
        }
        k = k + 1;
    }
    proof {
        assert(pv.take(counted@.len() as int) =~= pv);
    }
    if deploy_count > value_count && deploy_count - value_count > count {
        String::new()
    } else {
        result
    }
}

/// Filtering distributes over appending one element.
pub proof fn lemma_filter_push<A>(s: Seq<A>, pred: spec_fn(A) -> bool, x: A)
    ensures
        (s.push(x)).filter(pred) == (if pred(x) {
            s.filter(pred).push(x)
        } else {
            s.filter(pred)
        }),
{
    reveal(Seq::filter);
    assert(s.push(x).drop_last() =~= s);
    assert(s.push(x).last() == x);
}

/// A filter that holds of no element yields the empty sequence.
pub proof fn lemma_filter_none<A>(s: Seq<A>, pred: spec_fn(A) -> bool)
    requires
        forall|i: int| 0 <= i < s.len() ==> !pred(#[trigger] s[i]),
    ensures
        s.filter(pred) == Seq::<A>::empty(),
    decreases s.len(),
{
    reveal(Seq::filter);
    if s.len() > 0 {
        lemma_filter_none(s.drop_last(), pred);
        assert(!pred(s.last()));
        assert(s.filter(pred) =~= Seq::<A>::empty());
    } else {
        assert(s.filter(pred) =~= Seq::<A>::empty());
    }
}

/// Stable insertion by ascending sequence position: the new entry goes after
/// every entry whose sequence position is not greater.
pub open spec fn ins_by_sequence(s: Seq<IndexInfo>, x: IndexInfo) -> Seq<IndexInfo>
    decreases s.len(),
{
    if s.len() == 0 {
        seq![x]
    } else if s[0].sequence <= x.sequence {
        seq![s[0]] + ins_by_sequence(s.drop_first(), x)
    } else {
        seq![x] + s
    }
}

/// The entries sorted stably by ascending sequence position.
pub open spec fn sort_by_sequence(s: Seq<IndexInfo>) -> Seq<IndexInfo>
    decreases s.len(),
{
    if s.len() == 0 {
        Seq::empty()
    } else {
        ins_by_sequence(sort_by_sequence(s.drop_last()), s.last())
    }
}

proof fn lemma_ins_by_sequence_at(s: Seq<IndexInfo>, x: IndexInfo, j: int)
    requires
        0 <= j <= s.len(),
        forall|m: int| 0 <= m < j ==> (#[trigger] s[m]).sequence <= x.sequence,
        j == s.len() || s[j].sequence > x.sequence,
    ensures
        ins_by_sequence(s, x) == s.insert(j, x),
    decreases j,
{
    if j == 0 {
        if s.len() == 0 {
            assert(ins_by_sequence(s, x) =~= s.insert(0, x));
        } else {
            assert(seq![x] + s =~= s.insert(0, x));
        }
    } else {
        lemma_ins_by_sequence_at(s.drop_first(), x, j - 1);
        assert(seq![s[0]] + s.drop_first().insert(j - 1, x) =~= s.insert(j, x));
    }
}

/// Sorting keeps the number of entries.
pub proof fn lemma_sort_by_sequence_len(s: Seq<IndexInfo>)
    ensures
        sort_by_sequence(s).len() == s.len(),
    decreases s.len(),
{
    if s.len() > 0 {
        lemma_sort_by_sequence_len(s.drop_last());
        lemma_ins_by_sequence_len(sort_by_sequence(s.drop_last()), s.last());
    }
}

proof fn lemma_ins_by_sequence_len(s: Seq<IndexInfo>, x: IndexInfo)
    ensures
        ins_by_sequence(s, x).len() == s.len() + 1,
    decreases s.len(),
{
    if s.len() > 0 && s[0].sequence <= x.sequence {
        lemma_ins_by_sequence_len(s.drop_first(), x);
    }
}

/// The entries of a bucket observed in one deployment, in bucket order.
pub open spec fn deploy_facts(b: Seq<IndexInfo>, d: Deploy) -> Seq<IndexInfo> {
    b.filter(|i: IndexInfo| index_in_deploy(i, d))
}

/// The column names of the entries joined with `", "`.
pub open spec fn join_columns(s: Seq<IndexInfo>) -> Seq<char>
    decreases s.len(),
{
    if s.len() == 0 {
        Seq::empty()
    } else if s.len() == 1 {
        s[0].column@
    } else {
        join_columns(s.drop_last()) + ", "@ + s.last().column@
    }
}

/// The rendered form of an index from its entries sorted by sequence:
/// `"UNIQUE "` if the index is unique, then the joined column names.
pub open spec fn render_sorted(s: Seq<IndexInfo>) -> Seq<char> {
    if s.len() == 0 {
        Seq::empty()
    } else {
        (if s[0].unique {
            "UNIQUE "@
        } else {
            Seq::<char>::empty()
        }) + join_columns(s)
    }
}

/// The rendered form of the index of bucket `b` in deployment `d`.
pub open spec fn index_render(b: Seq<IndexInfo>, d: Deploy) -> Seq<char> {
    render_sorted(sort_by_sequence(deploy_facts(b, d)))
}

fn index_in_deploy_exec(i: &IndexInfo, d: &Deploy) -> (r: bool)
    ensures
        r == index_in_deploy(*i, *d),
{
    let e = str_eq(i.environment.as_str(), d.environment.as_str());
    let c = str_eq(i.country.as_str(), d.country.as_str());
    e && c
}

/// The entries of `list` observed in deployment `d`, sorted by ascending
/// sequence position.
pub fn collect_deploy_facts(list: &Vec<IndexInfo>, d: &Deploy) -> (v: Vec<IndexInfo>)
    ensures
        v@ == sort_by_sequence(deploy_facts(list@, *d)),
{
    let ghost pred = |i: IndexInfo| index_in_deploy(i, *d);
    let mut v: Vec<IndexInfo> = Vec::new();
    let mut i: usize = 0;
    proof {
        assert(list@.take(0) =~= Seq::<IndexInfo>::empty());
        assert(list@.take(0).filter(pred) =~= Seq::<IndexInfo>::empty());
    }
    while i < list.len()
        invariant
            i <= list@.len(),
            v@ == sort_by_sequence(list@.take(i as int).filter(pred)),
            pred == (|i: IndexInfo| index_in_deploy(i, *d)),
        decreases list@.len() - i,
    {
        let ghost prefix = list@.take(i as int).filter(pred);
        proof {
            assert(list@.take(i + 1) =~= list@.take(i as int).push(list@[i as int]));
            lemma_filter_push(list@.take(i as int), pred, list@[i as int]);
            assert(pred(list@[i as int]) == index_in_deploy(list@[i as int], *d));
        }
        if index_in_deploy_exec(&list[i], d) {
            let x = list[i].duplicate();
            let mut j: usize = 0;
            while j < v.len() && v[j].sequence <= x.sequence
                invariant
                    j <= v@.len(),
                    forall|m: int| 0 <= m < j ==> (#[trigger] v@[m]).sequence <= x.sequence,
                decreases v@.len() - j,
            {
                j = j + 1;
            }
            proof {
                lemma_ins_by_sequence_at(v@, x, j as int);
                assert(list@.take(i + 1).filter(pred) == prefix.push(list@[i as int]));
                assert(prefix.push(list@[i as int]).drop_last() =~= prefix);
                assert(sort_by_sequence(prefix.push(list@[i as int])) == ins_by_sequence(
                    sort_by_sequence(prefix),
                    list@[i as int],
                ));
            }
            v.insert(j, x);
        } else {
            proof {
                assert(list@.take(i + 1).filter(pred) == prefix);
            }
        }
        i = i + 1;
    }
    proof {
        assert(list@.take(list@.len() as int) =~= list@);
    }
    v
}

/// Renders an index from its entries, already sorted by sequence position.
/// The uniqueness flag is taken from the first entry; all entries of one
/// index in one deployment share it.
pub fn index_format(columns: &Vec<IndexInfo>) -> (r: String)
    requires
        columns@.len() > 0,
    ensures
        r@ == render_sorted(columns@),
{
    let mut s = String::new();
    if columns[0].unique {
        s.append("UNIQUE ");
    }
    s.append(columns[0].column.as_str());
    proof {
        assert(columns@.take(1).len() == 1);
        assert(columns@.take(1)[0] == columns@[0]);
        assert(join_columns(columns@.take(1)) == columns@[0].column@);
        assert(s@ =~= (if columns@[0].unique {
            "UNIQUE "@
        } else {
            Seq::<char>::empty()
        }) + join_columns(columns@.take(1)));
    }
    let mut i: usize = 1;
    while i < columns.len()
        invariant
            1 <= i <= columns@.len(),
            s@ == (if columns@[0].unique {
                "UNIQUE "@
            } else {
                Seq::<char>::empty()
            }) + join_columns(columns@.take(i as int)),
        decreases columns@.len() - i,
    {
        s.append(", ");
        s.append(columns[i].column.as_str());
        proof {
            assert(columns@.take(i + 1).drop_last() =~= columns@.take(i as int));
            assert(columns@.take(i + 1).last() == columns@[i as int]);
            assert(join_columns(columns@.take(i + 1)) == join_columns(columns@.take(i as int))
                + ", "@ + columns@[i as int].column@);
            assert(s@ =~= (if columns@[0].unique {
                "UNIQUE "@
            } else {
                Seq::<char>::empty()
            }) + join_columns(columns@.take(i + 1)));
        }
        i = i + 1;
    }
    proof {
        assert(columns@.take(columns@.len() as int) =~= columns@);
    }
    s
}

/// The rendered forms that enter the index tally: one per deployment that has
/// the index, empty forms left out.
pub open spec fn index_forms(b: Seq<IndexInfo>, ds: Seq<Deploy>) -> Seq<Seq<char>>
    decreases ds.len(),
{
    if ds.len() == 0 {
        Seq::empty()
    } else {
        index_forms(b, ds.drop_last()) + (if index_render(b, ds.last()).len() == 0 {
            Seq::<Seq<char>>::empty()
        } else {
            seq![index_render(b, ds.last())]
        })
    }
}

/// The baseline of a bucket of index entries. The value count of the absence
/// rule is the number of deployments that have the index (one joined form
/// each), so the absent cells are `ds.len()` minus that number.
pub open spec fn most_used_index(b: Seq<IndexInfo>, ds: Seq<Deploy>) -> Seq<char> {
    select_baseline(tally(index_forms(b, ds)), index_forms(b, ds).len() as int, ds.len() as int)
}

/// Tallies the per-deployment rendered forms of one index and picks the
/// baseline under the absence rule.
pub fn find_most_used_index(deploys: &Vec<Deploy>, list: &Vec<IndexInfo>) -> (r: String)
    ensures
        r@ == most_used_index(list@, deploys@),
{
    let mut pairs: Vec<(String, usize)> = Vec::new();
    let mut value_count: usize = 0;
    let mut i: usize = 0;
    proof {
        assert(deploys@.take(0) =~= Seq::<Deploy>::empty());
        assert(pairs_view(pairs@) =~= Seq::<(Seq<char>, int)>::empty());
    }
    while i < deploys.len()
        invariant
            i <= deploys@.len(),
            pairs_view(pairs@) == tally(index_forms(list@, deploys@.take(i as int))),
            value_count as int == index_forms(list@, deploys@.take(i as int)).len(),
            value_count <= i,
            forall|m: int| 0 <= m < pairs@.len() ==> (#[trigger] pairs@[m]).1 <= i,
        decreases deploys@.len() - i,
    {
        let ghost fs = index_forms(list@, deploys@.take(i as int));
        proof {
            assert(deploys@.take(i + 1).drop_last() =~= deploys@.take(i as int));
            assert(deploys@.take(i + 1).last() == deploys@[i as int]);
        }
        let facts = collect_deploy_facts(list, &deploys[i]);
        if facts.len() > 0 {
            let f = index_format(&facts);
            if !f.as_str().is_empty() {
                bump_tally(&mut pairs, f, Ghost(i as int));
                value_count = value_count + 1;
                proof {
                    let nf = index_forms(list@, deploys@.take(i + 1));
                    assert(nf == fs + seq![index_render(list@, deploys@[i as int])]);
                    assert(nf.drop_last() =~= fs);
                    assert(nf.last() == index_render(list@, deploys@[i as int]));
                }
            } else {
                proof {
                    assert(index_forms(list@, deploys@.take(i + 1)) =~= fs);
                }
            }
        } else {
            proof {
                assert(index_render(list@, deploys@[i as int]).len() == 0);
                assert(index_forms(list@, deploys@.take(i + 1)) =~= fs);
            }
        }
        i = i + 1;
    }
    proof {
        assert(deploys@.take(deploys@.len() as int) =~= deploys@);
    }
    select_max_one(&pairs, value_count, deploys.len())
}

/// The rendered forms of a bucket of column facts, in bucket order.
pub open spec fn column_forms(list: Seq<ColumnInfo>) -> Seq<Seq<char>> {
    list.map_values(|c: ColumnInfo| column_render(c))
}

/// The baseline of a bucket of column facts.
pub open spec fn most_used_column(list: Seq<ColumnInfo>, deploy_count: int) -> Seq<char> {
    select_baseline(tally(column_forms(list)), list.len() as int, deploy_count)
}

/// Tallies the rendered forms of a bucket of column facts and picks the
/// baseline under the absence rule.
pub fn find_most_used_column(list: &Vec<ColumnInfo>, deploy_count: usize) -> (r: String)
    ensures
        r@ == most_used_column(list@, deploy_count as int),
{
    let ghost cf = column_forms(list@);
    let mut pairs: Vec<(String, usize)> = Vec::new();
    let mut i: usize = 0;
    proof {
        assert(cf.take(0) =~= Seq::<Seq<char>>::empty());
        assert(pairs_view(pairs@) =~= Seq::<(Seq<char>, int)>::empty());
    }
    while i < list.len()
        invariant
            i <= list@.len(),
            cf == column_forms(list@),
            pairs_view(pairs@) == tally(cf.take(i as int)),
            forall|m: int| 0 <= m < pairs@.len() ==> (#[trigger] pairs@[m]).1 <= i,
        decreases list@.len() - i,
    {
        let f = column_format(&list[i]);
        bump_tally(&mut pairs, f, Ghost(i as int));
        proof {
            assert(cf.take(i + 1).drop_last() =~= cf.take(i as int));
            assert(cf.take(i + 1).last() == column_render(list@[i as int]));
        }
        i = i + 1;
    }
    proof {
        assert(cf.take(list@.len() as int) =~= cf);
    }
    select_max_one(&pairs, list.len(), deploy_count)
}

} // verus!
