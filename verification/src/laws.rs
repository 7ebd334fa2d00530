//! Global properties of the reconciliation engine, proved once and for all:
//! determinism of the reports, the absence and majority rules, the shape of
//! the report on empty input, and independence of the index rendering — and
//! of the whole index report — from the order the facts were collected in.

use vstd::prelude::*;

use crate::models::{column_in_deploy, index_in_deploy, index_key, ColumnInfo, Deploy, IndexInfo};
use crate::text::{lemma_lex3_lt_connected, lemma_lex3_lt_irrefl, lemma_lex3_lt_trans, lex3_lt};
use crate::reconcile::{
    best_of, bump, column_forms, column_render, deploy_facts, index_render, ins_by_sequence,
    most_used_column, render_sorted, sort_by_sequence, tally,
};
use crate::grouping::{index_keys, insert_key, keys_sorted};
use crate::report::{column_cell, column_report, first_col_match, index_report};

verus! {

/// Whether the entries are in ascending order of sequence position.
pub open spec fn sorted_by_seq(s: Seq<IndexInfo>) -> bool {
    forall|i: int, j: int|
        0 <= i < j < s.len() ==> (#[trigger] s[i]).sequence <= (#[trigger] s[j]).sequence
}

/// Whether no two entries share a sequence position.
pub open spec fn distinct_sequences(s: Seq<IndexInfo>) -> bool {
    forall|i: int, j: int|
        0 <= i < j < s.len() ==> (#[trigger] s[i]).sequence != (#[trigger] s[j]).sequence
}

/// Whether, within every (schema, table, index name, deployment) group of
/// `s`, the sequence positions are pairwise distinct — valid data has exactly
/// one entry per column position of an index in a deployment.
pub open spec fn distinct_sequences_within_groups(s: Seq<IndexInfo>) -> bool {
    forall|i: int, j: int|
        0 <= i < j < s.len() && index_key(#[trigger] s[i]) == index_key(#[trigger] s[j])
            && s[i].environment@ == s[j].environment@ && s[i].country@ == s[j].country@
            ==> s[i].sequence != s[j].sequence
}

/// Determinism: both reports are functions of the fact lists and the
/// deployment registry alone. Equal inputs give equal reports, ties in the
/// majority tally included: the tally breaks ties by first appearance, so no
/// outcome depends on iteration order or run-to-run state.
pub proof fn lemma_reports_deterministic(
    c1: Seq<ColumnInfo>,
    c2: Seq<ColumnInfo>,
    x1: Seq<IndexInfo>,
    x2: Seq<IndexInfo>,
    d1: Seq<Deploy>,
    d2: Seq<Deploy>,
)
    requires
        c1 == c2,
        x1 == x2,
        d1 == d2,
    ensures
        column_report(c1, d1) == column_report(c2, d2),
        index_report(x1, d1) == index_report(x2, d2),
{
}

/// Empty input: with no facts and no deployments each report is its header
/// line alone, with no data columns and no data rows.
pub proof fn lemma_empty_input_reports()
    ensures
        column_report(Seq::empty(), Seq::empty()) == "Schema\tTable\tColumn\n"@,
        index_report(Seq::empty(), Seq::empty()) == "Schema\tTable\tIndex\n"@,
{
    reveal_strlit("Schema\tTable\tColumn");
    reveal_strlit("Schema\tTable\tIndex");
    reveal_strlit("Schema\tTable\tColumn\n");
    reveal_strlit("Schema\tTable\tIndex\n");
    reveal_strlit("\n");
    assert(column_report(Seq::empty(), Seq::empty()) =~= "Schema\tTable\tColumn\n"@);
    assert(index_report(Seq::empty(), Seq::empty()) =~= "Schema\tTable\tIndex\n"@);
}

proof fn lemma_tally_single(f: Seq<char>)
    ensures
        tally(seq![f]) == seq![(f, 1int)],
{
    let forms = seq![f];
    assert(forms.drop_last() =~= Seq::<Seq<char>>::empty());
    assert(tally(Seq::<Seq<char>>::empty()) == Seq::<(Seq<char>, int)>::empty());
    assert(bump(Seq::<(Seq<char>, int)>::empty(), f) =~= seq![(f, 1int)]);
    assert(tally(forms) =~= seq![(f, 1int)]);
}

/// Absence rule: among three deployments, a bucket holding exactly one fact
/// has two absent cells against one value, so the baseline is empty, and the
/// one deployment that does have the fact is the deviating one.
pub proof fn lemma_absence_rule(b: Seq<ColumnInfo>, d: Deploy)
    requires
        b.len() == 1,
        column_in_deploy(b[0], d),
        column_render(b[0]).len() > 0,
    ensures
        most_used_column(b, 3) == Seq::<char>::empty(),
        column_cell(b, d, most_used_column(b, 3)) == "\t**"@ + column_render(b[0]),
{
    let f = column_render(b[0]);
    assert(column_forms(b) =~= seq![f]);
    lemma_tally_single(f);
    assert(seq![(f, 1int)].drop_last() =~= Seq::<(Seq<char>, int)>::empty());
    assert(best_of(Seq::<(Seq<char>, int)>::empty()) == (Seq::<char>::empty(), 0int));
    assert(best_of(seq![(f, 1int)]) == (f, 1int));
    assert(first_col_match(b, d) == Some(b[0]));
}

/// Majority rule: among three deployments whose rendered forms are A, A, B
/// (each fact in its own deployment, A and B different), the baseline is A;
/// the two A cells are unmarked and the B cell bears the deviation marker.
pub proof fn lemma_majority_rule(b: Seq<ColumnInfo>, ds: Seq<Deploy>)
    requires
        b.len() == 3,
        ds.len() == 3,
        column_render(b[1]) == column_render(b[0]),
        column_render(b[2]) != column_render(b[0]),
        forall|i: int, j: int|
            0 <= i < 3 && 0 <= j < 3 ==> (column_in_deploy(#[trigger] b[i], #[trigger] ds[j])
                <==> i == j),
    ensures
        most_used_column(b, 3) == column_render(b[0]),
        column_cell(b, ds[0], most_used_column(b, 3)) == "\t"@ + column_render(b[0]),
        column_cell(b, ds[1], most_used_column(b, 3)) == "\t"@ + column_render(b[0]),
        column_cell(b, ds[2], most_used_column(b, 3)) == "\t**"@ + column_render(b[2]),
{
    let fa = column_render(b[0]);
    let fb = column_render(b[2]);
    let forms = column_forms(b);
    assert(forms =~= seq![fa, fa, fb]);
    assert(seq![fa, fa, fb].drop_last() =~= seq![fa, fa]);
    assert(seq![fa, fa].drop_last() =~= seq![fa]);
    lemma_tally_single(fa);
    assert(seq![(fa, 1int)].drop_first() =~= Seq::<(Seq<char>, int)>::empty());
    assert(bump(seq![(fa, 1int)], fa) =~= seq![(fa, 2int)]);
    assert(tally(seq![fa, fa]) =~= seq![(fa, 2int)]);
    assert(seq![(fa, 2int)].drop_first() =~= Seq::<(Seq<char>, int)>::empty());
    assert(bump(Seq::<(Seq<char>, int)>::empty(), fb) =~= seq![(fb, 1int)]);
    assert(bump(seq![(fa, 2int)], fb) =~= seq![(fa, 2int), (fb, 1int)]);
    assert(tally(forms) =~= seq![(fa, 2int), (fb, 1int)]);
    let pairs = seq![(fa, 2int), (fb, 1int)];
    assert(pairs.drop_last() =~= seq![(fa, 2int)]);
    assert(seq![(fa, 2int)].drop_last() =~= Seq::<(Seq<char>, int)>::empty());
    assert(best_of(Seq::<(Seq<char>, int)>::empty()) == (Seq::<char>::empty(), 0int));
    assert(best_of(seq![(fa, 2int)]) == (fa, 2int));
    assert(best_of(pairs) == (fa, 2int));
    assert(most_used_column(b, 3) == fa);
    // the cell of each deployment
    assert(first_col_match(b, ds[0]) == Some(b[0]));
    assert(b.drop_first()[0] == b[1]);
    assert(b.drop_first().len() == 2);
    assert(first_col_match(b.drop_first(), ds[1]) == Some(b[1]));
    assert(first_col_match(b, ds[1]) == Some(b[1]));
    assert(b.drop_first().drop_first()[0] == b[2]);
    assert(b.drop_first().drop_first().len() == 1);
    assert(first_col_match(b.drop_first().drop_first(), ds[2]) == Some(b[2]));
    assert(first_col_match(b.drop_first(), ds[2]) == Some(b[2]));
    assert(first_col_match(b, ds[2]) == Some(b[2]));
}

proof fn lemma_filter_contains_in<A>(s: Seq<A>, pred: spec_fn(A) -> bool)
    ensures
        forall|i: int|
            0 <= i < s.filter(pred).len() ==> s.contains(#[trigger] s.filter(pred)[i]),
    decreases s.len(),
{
    reveal(Seq::filter);
    if s.len() > 0 {
        let d = s.drop_last();
        lemma_filter_contains_in(d, pred);
        assert forall|i: int|
            0 <= i < s.filter(pred).len() implies s.contains(#[trigger] s.filter(pred)[i]) by {
            if i < d.filter(pred).len() {
                assert(s.filter(pred)[i] == d.filter(pred)[i]);
                let m = choose|m: int| 0 <= m < d.len() && d[m] == d.filter(pred)[i];
                assert(s[m] == d.filter(pred)[i]);
            } else {
                assert(s.filter(pred)[i] == s.last());
                assert(s[s.len() - 1] == s.last());
            }
        }
    }
}

proof fn lemma_filter_to_multiset<A>(s: Seq<A>, pred: spec_fn(A) -> bool)
    ensures
        s.filter(pred).to_multiset() =~= s.to_multiset().filter(pred),
    decreases s.len(),
{
    broadcast use vstd::seq_lib::group_to_multiset_ensures;
    broadcast use vstd::multiset::group_multiset_axioms;

    reveal(Seq::filter);
    if s.len() == 0 {
        assert(s.filter(pred) =~= Seq::<A>::empty());
        assert forall|v: A| s.to_multiset().filter(pred).count(v) == 0 by {
            assert(!s.contains(v));
        }
        assert forall|v: A| s.filter(pred).to_multiset().count(v) == 0 by {
            assert(!s.filter(pred).contains(v));
        }
    } else {
        let d = s.drop_last();
        let x = s.last();
        lemma_filter_to_multiset(d, pred);
        assert(d.push(x) =~= s);
        assert(d.push(x).to_multiset() =~= d.to_multiset().insert(x));
        if pred(x) {
            assert(s.filter(pred) == d.filter(pred).push(x));
            assert(d.filter(pred).push(x).to_multiset() =~= d.filter(pred).to_multiset().insert(
                x,
            ));
        } else {
            assert(s.filter(pred) == d.filter(pred));
        }
    }
}

proof fn lemma_count_two_positions<A>(s: Seq<A>, e: A)
    requires
        s.to_multiset().count(e) >= 2,
    ensures
        exists|i: int, j: int| 0 <= i < j < s.len() && #[trigger] s[i] == e && #[trigger] s[j]
            == e,
{
    broadcast use vstd::seq_lib::group_to_multiset_ensures;
    broadcast use vstd::multiset::group_multiset_axioms;

    assert(s.contains(e));
    let p = choose|p: int| 0 <= p < s.len() && s[p] == e;
    assert(s.remove(p).to_multiset() =~= s.to_multiset().remove(s[p]));
    assert(s.remove(p).to_multiset().count(e) >= 1);
    assert(s.remove(p).contains(e));
    let q0 = choose|q0: int| 0 <= q0 < s.remove(p).len() && s.remove(p)[q0] == e;
    let q = if q0 < p {
        q0
    } else {
        q0 + 1
    };
    assert(s[q] == s.remove(p)[q0]);
    assert(q != p);
    if p < q {
        assert(s[p] == e && s[q] == e);
    } else {
        assert(s[q] == e && s[p] == e);
    }
}

proof fn lemma_two_positions_count<A>(s: Seq<A>, i: int, j: int)
    requires
        0 <= i < j < s.len(),
        s[i] == s[j],
    ensures
        s.to_multiset().count(s[i]) >= 2,
{
    broadcast use vstd::seq_lib::group_to_multiset_ensures;
    broadcast use vstd::multiset::group_multiset_axioms;

    assert(s.remove(j).to_multiset() =~= s.to_multiset().remove(s[j]));
    assert(s.remove(j)[i] == s[i]);
    assert(s.remove(j).contains(s[i]));
    assert(s.to_multiset().remove(s[j]).count(s[i]) >= 1);
}

proof fn lemma_distinct_in_bucket(s: Seq<IndexInfo>, k: (Seq<char>, Seq<char>, Seq<char>), d: Deploy)
    requires
        distinct_sequences_within_groups(s),
    ensures
        distinct_sequences(deploy_facts(s.filter(|c: IndexInfo| index_key(c) == k), d)),
{
    broadcast use vstd::seq_lib::group_to_multiset_ensures;
    broadcast use vstd::multiset::group_multiset_axioms;
    broadcast use vstd::seq_lib::group_filter_ensures;

    let kp = |c: IndexInfo| index_key(c) == k;
    let dp = |i: IndexInfo| index_in_deploy(i, d);
    let b = s.filter(kp);
    let f = b.filter(dp);
    assert(deploy_facts(b, d) == f);
    lemma_filter_contains_in(s, kp);
    lemma_filter_contains_in(b, dp);
    lemma_filter_to_multiset(s, kp);
    lemma_filter_to_multiset(b, dp);
    assert forall|p: int, q: int|
        0 <= p < q < f.len() implies (#[trigger] f[p]).sequence != (#[trigger] f[q]).sequence by {
        if f[p].sequence == f[q].sequence {
            assert(dp(f[p]) && dp(f[q]));
            assert(b.contains(f[p]) && b.contains(f[q]));
            let mp = choose|m: int| 0 <= m < b.len() && b[m] == f[p];
            let mq = choose|m: int| 0 <= m < b.len() && b[m] == f[q];
            assert(kp(f[p]) && kp(f[q]));
            if f[p] == f[q] {
                let e = f[p];
                lemma_two_positions_count(f, p, q);
                assert(b.to_multiset().count(e) >= 2);
                assert(s.to_multiset().count(e) >= 2);
                lemma_count_two_positions(s, e);
                let (i1, j1) = choose|i1: int, j1: int|
                    0 <= i1 < j1 < s.len() && #[trigger] s[i1] == e && #[trigger] s[j1] == e;
                assert(s[i1].sequence != s[j1].sequence);
                assert(false);
            } else {
                let e1 = f[p];
                let e2 = f[q];
                assert(s.contains(e1));
                assert(s.contains(e2));
                let p1 = choose|m: int| 0 <= m < s.len() && s[m] == e1;
                let q1 = choose|m: int| 0 <= m < s.len() && s[m] == e2;
                assert(p1 != q1);
                assert(index_key(e1) == index_key(e2));
                assert(e1.environment@ == e2.environment@ && e1.country@ == e2.country@);
                if p1 < q1 {
                    assert(s[p1].sequence != s[q1].sequence);
                } else {
                    assert(s[q1].sequence != s[p1].sequence);
                }
                assert(false);
            }
        }
    }
}

/// Whether some fact of `s` carries the grouping key `k`.
pub open spec fn has_index_key(s: Seq<IndexInfo>, k: (Seq<char>, Seq<char>, Seq<char>)) -> bool {
    exists|i: int| 0 <= i < s.len() && index_key(#[trigger] s[i]) == k
}

proof fn lemma_insert_key_props(
    ks: Seq<(Seq<char>, Seq<char>, Seq<char>)>,
    k: (Seq<char>, Seq<char>, Seq<char>),
)
    requires
        keys_sorted(ks),
    ensures
        keys_sorted(insert_key(ks, k)),
        forall|x: (Seq<char>, Seq<char>, Seq<char>)|
            #[trigger] insert_key(ks, k).contains(x) ==> ks.contains(x) || x == k,
        forall|x: (Seq<char>, Seq<char>, Seq<char>)|
            #[trigger] ks.contains(x) ==> insert_key(ks, k).contains(x),
        insert_key(ks, k).contains(k),
    decreases ks.len(),
{
    let r = insert_key(ks, k);
    if ks.len() == 0 {
        assert(r =~= seq![k]);
        assert(r[0] == k);
        assert(r.contains(k));
        assert forall|x: (Seq<char>, Seq<char>, Seq<char>)|
            #[trigger] r.contains(x) implies ks.contains(x) || x == k by {
            let i = choose|i: int| 0 <= i < r.len() && r[i] == x;
            assert(i == 0);
        }
    } else if lex3_lt(ks[0], k) {
        assert(keys_sorted(ks.drop_first()));
        lemma_insert_key_props(ks.drop_first(), k);
        let t = insert_key(ks.drop_first(), k);
        assert(r == seq![ks[0]] + t);
        assert forall|p: int, q: int| 0 <= p < q < r.len() implies lex3_lt(r[p], r[q]) by {
            if p == 0 {
                assert(r[q] == t[q - 1]);
                assert(t.contains(t[q - 1]));
                if t[q - 1] == k {
                } else {
                    assert(ks.drop_first().contains(t[q - 1]));
                    let m = choose|m: int|
                        0 <= m < ks.drop_first().len() && ks.drop_first()[m] == t[q - 1];
                    assert(ks[m + 1] == t[q - 1]);
                    assert(lex3_lt(ks[0], ks[m + 1]));
                }
            } else {
                assert(r[p] == t[p - 1] && r[q] == t[q - 1]);
            }
        }
        assert(t.contains(k));
        let w = choose|w: int| 0 <= w < t.len() && t[w] == k;
        assert(r[w + 1] == k);
        assert(r.contains(k));
        assert forall|x: (Seq<char>, Seq<char>, Seq<char>)|
            #[trigger] r.contains(x) implies ks.contains(x) || x == k by {
            let i = choose|i: int| 0 <= i < r.len() && r[i] == x;
            if i == 0 {
                assert(ks[0] == x);
                assert(ks.contains(x));
            } else {
                assert(t[i - 1] == x);
                assert(t.contains(x));
                if x != k {
                    assert(ks.drop_first().contains(x));
                    let m = choose|m: int|
                        0 <= m < ks.drop_first().len() && ks.drop_first()[m] == x;
                    assert(ks[m + 1] == x);
                    assert(ks.contains(x));
                }
            }
        }
        assert forall|x: (Seq<char>, Seq<char>, Seq<char>)|
            #[trigger] ks.contains(x) implies r.contains(x) by {
            let i = choose|i: int| 0 <= i < ks.len() && ks[i] == x;
            if i == 0 {
                assert(r[0] == x);
            } else {
                assert(ks.drop_first()[i - 1] == x);
                assert(ks.drop_first().contains(x));
                assert(t.contains(x));
                let m = choose|m: int| 0 <= m < t.len() && t[m] == x;
                assert(r[m + 1] == x);
            }
            assert(r.contains(x));
        }
    } else if ks[0] == k {
        assert(r == ks);
        assert(ks[0] == k);
        assert(r.contains(k));
    } else {
        if !lex3_lt(k, ks[0]) {
            lemma_lex3_lt_connected(k, ks[0]);
            assert(false);
        }
        assert(r == seq![k] + ks);
        assert forall|p: int, q: int| 0 <= p < q < r.len() implies lex3_lt(r[p], r[q]) by {
            if p == 0 {
                assert(r[q] == ks[q - 1]);
                if q - 1 > 0 {
                    lemma_lex3_lt_trans(k, ks[0], ks[q - 1]);
                }
            } else {
                assert(r[p] == ks[p - 1] && r[q] == ks[q - 1]);
            }
        }
        assert(r[0] == k);
        assert(r.contains(k));
        assert forall|x: (Seq<char>, Seq<char>, Seq<char>)|
            #[trigger] r.contains(x) implies ks.contains(x) || x == k by {
            let i = choose|i: int| 0 <= i < r.len() && r[i] == x;
            if i > 0 {
                assert(ks[i - 1] == x);
                assert(ks.contains(x));
            }
        }
        assert forall|x: (Seq<char>, Seq<char>, Seq<char>)|
            #[trigger] ks.contains(x) implies r.contains(x) by {
            let i = choose|i: int| 0 <= i < ks.len() && ks[i] == x;
            assert(r[i + 1] == x);
        }
    }
}

proof fn lemma_index_keys_props(s: Seq<IndexInfo>)
    ensures
        keys_sorted(index_keys(s)),
        forall|x: (Seq<char>, Seq<char>, Seq<char>)|
            #[trigger] index_keys(s).contains(x) ==> has_index_key(s, x),
        forall|i: int|
            0 <= i < s.len() ==> index_keys(s).contains(index_key(#[trigger] s[i])),
    decreases s.len(),
{
    if s.len() > 0 {
        let d = s.drop_last();
        lemma_index_keys_props(d);
        lemma_insert_key_props(index_keys(d), index_key(s.last()));
        assert(index_keys(s) == insert_key(index_keys(d), index_key(s.last())));
        assert forall|x: (Seq<char>, Seq<char>, Seq<char>)|
            #[trigger] index_keys(s).contains(x) implies has_index_key(s, x) by {
            if x == index_key(s.last()) {
                assert(index_key(s[s.len() - 1]) == x);
            } else {
                assert(index_keys(d).contains(x));
                assert(has_index_key(d, x));
                let i = choose|i: int| 0 <= i < d.len() && index_key(d[i]) == x;
                assert(index_key(s[i]) == x);
            }
        }
        assert forall|i: int|
            0 <= i < s.len() implies index_keys(s).contains(index_key(#[trigger] s[i])) by {
            if i < s.len() - 1 {
                assert(d[i] == s[i]);
                assert(index_keys(d).contains(index_key(d[i])));
            } else {
                assert(s[i] == s.last());
            }
        }
    }
}

proof fn lemma_sorted_drop_first_contains(x: Seq<(Seq<char>, Seq<char>, Seq<char>)>)
    requires
        keys_sorted(x),
        x.len() > 0,
    ensures
        forall|e: (Seq<char>, Seq<char>, Seq<char>)|
            #[trigger] x.drop_first().contains(e) <==> (x.contains(e) && e != x[0]),
{
    assert forall|e: (Seq<char>, Seq<char>, Seq<char>)|
        #[trigger] x.drop_first().contains(e) <==> (x.contains(e) && e != x[0]) by {
        if x.drop_first().contains(e) {
            let m = choose|m: int| 0 <= m < x.drop_first().len() && x.drop_first()[m] == e;
            assert(x[m + 1] == e);
            assert(x.contains(e));
            assert(lex3_lt(x[0], x[m + 1]));
            lemma_lex3_lt_irrefl(e);
        }
        if x.contains(e) && e != x[0] {
            let p = choose|p: int| 0 <= p < x.len() && x[p] == e;
            assert(p != 0);
            assert(x.drop_first()[p - 1] == e);
            assert(x.drop_first().contains(e));
        }
    }
}

proof fn lemma_sorted_keys_unique(
    x: Seq<(Seq<char>, Seq<char>, Seq<char>)>,
    y: Seq<(Seq<char>, Seq<char>, Seq<char>)>,
)
    requires
        keys_sorted(x),
        keys_sorted(y),
        forall|e: (Seq<char>, Seq<char>, Seq<char>)| #[trigger] x.contains(e) ==> y.contains(e),
        forall|e: (Seq<char>, Seq<char>, Seq<char>)| #[trigger] y.contains(e) ==> x.contains(e),
    ensures
        x == y,
    decreases x.len(),
{
    if x.len() == 0 {
        if y.len() > 0 {
            assert(y.contains(y[0]));
            assert(x.contains(y[0]));
            let i = choose|i: int| 0 <= i < x.len() && x[i] == y[0];
            assert(false);
        }
        assert(x =~= y);
    } else if y.len() == 0 {
        assert(x.contains(x[0]));
        assert(y.contains(x[0]));
        let i = choose|i: int| 0 <= i < y.len() && y[i] == x[0];
        assert(false);
    } else {
        assert(x.contains(x[0]));
        assert(y.contains(x[0]));
        let m = choose|m: int| 0 <= m < y.len() && y[m] == x[0];
        assert(y.contains(y[0]));
        assert(x.contains(y[0]));
        let n = choose|n: int| 0 <= n < x.len() && x[n] == y[0];
        if m > 0 {
            assert(lex3_lt(y[0], y[m]));
            if n > 0 {
                assert(lex3_lt(x[0], x[n]));
                lemma_lex3_lt_trans(x[0], y[0], x[0]);
                lemma_lex3_lt_irrefl(x[0]);
            } else {
                lemma_lex3_lt_irrefl(x[0]);
            }
            assert(false);
        }
        assert(x[0] == y[0]);
        assert(keys_sorted(x.drop_first()));
        assert(keys_sorted(y.drop_first()));
        lemma_sorted_drop_first_contains(x);
        lemma_sorted_drop_first_contains(y);
        lemma_sorted_keys_unique(x.drop_first(), y.drop_first());
        assert forall|i: int| 0 <= i < x.len() implies x[i] == y[i] by {
            if i > 0 {
                assert(x[i] == x.drop_first()[i - 1]);
                assert(y[i] == y.drop_first()[i - 1]);
            }
        }
        assert(x.len() == 1 + x.drop_first().len());
        assert(y.len() == 1 + y.drop_first().len());
        assert(x =~= y);
    }
}

proof fn lemma_index_keys_permutation(s1: Seq<IndexInfo>, s2: Seq<IndexInfo>)
    requires
        s1.to_multiset() == s2.to_multiset(),
    ensures
        index_keys(s1) == index_keys(s2),
{
    broadcast use vstd::seq_lib::group_to_multiset_ensures;
    broadcast use vstd::multiset::group_multiset_axioms;

    lemma_index_keys_props(s1);
    lemma_index_keys_props(s2);
    assert forall|e: (Seq<char>, Seq<char>, Seq<char>)|
        #[trigger] index_keys(s1).contains(e) implies index_keys(s2).contains(e) by {
        assert(has_index_key(s1, e));
        let i = choose|i: int| 0 <= i < s1.len() && index_key(s1[i]) == e;
        assert(s1.contains(s1[i]));
        assert(s2.to_multiset().count(s1[i]) > 0);
        assert(s2.contains(s1[i]));
        let j = choose|j: int| 0 <= j < s2.len() && s2[j] == s1[i];
        assert(index_keys(s2).contains(index_key(s2[j])));
    }
    assert forall|e: (Seq<char>, Seq<char>, Seq<char>)|
        #[trigger] index_keys(s2).contains(e) implies index_keys(s1).contains(e) by {
        assert(has_index_key(s2, e));
        let i = choose|i: int| 0 <= i < s2.len() && index_key(s2[i]) == e;
        assert(s2.contains(s2[i]));
        assert(s1.to_multiset().count(s2[i]) > 0);
        assert(s1.contains(s2[i]));
        let j = choose|j: int| 0 <= j < s1.len() && s1[j] == s2[i];
        assert(index_keys(s1).contains(index_key(s1[j])));
    }
    lemma_sorted_keys_unique(index_keys(s1), index_keys(s2));
}

proof fn lemma_cons_multiset(t: Seq<IndexInfo>, a: IndexInfo)
    ensures
        (seq![a] + t).to_multiset() =~= t.to_multiset().insert(a),
{
    broadcast use vstd::seq_lib::group_to_multiset_ensures;
    broadcast use vstd::multiset::group_multiset_axioms;

    let r = seq![a] + t;
    assert(r.remove(0) =~= t);
    assert(r.remove(0).to_multiset() =~= r.to_multiset().remove(a));
    assert(r.contains(a));
    assert(r.to_multiset().count(a) > 0);
    assert(r.to_multiset() =~= t.to_multiset().insert(a));
}

proof fn lemma_ins_multiset(s: Seq<IndexInfo>, x: IndexInfo)
    ensures
        ins_by_sequence(s, x).to_multiset() =~= s.to_multiset().insert(x),
    decreases s.len(),
{
    broadcast use vstd::seq_lib::group_to_multiset_ensures;
    broadcast use vstd::multiset::group_multiset_axioms;

    if s.len() == 0 {
        assert(ins_by_sequence(s, x) =~= seq![x] + s);
        lemma_cons_multiset(s, x);
    } else if s[0].sequence <= x.sequence {
        lemma_ins_multiset(s.drop_first(), x);
        lemma_cons_multiset(ins_by_sequence(s.drop_first(), x), s[0]);
        lemma_cons_multiset(s.drop_first(), s[0]);
        assert(seq![s[0]] + s.drop_first() =~= s);
        assert(ins_by_sequence(s, x).to_multiset() =~= s.drop_first().to_multiset().insert(
            x,
        ).insert(s[0]));
        assert(s.to_multiset() =~= s.drop_first().to_multiset().insert(s[0]));
        assert(ins_by_sequence(s, x).to_multiset() =~= s.to_multiset().insert(x));
    } else {
        lemma_cons_multiset(s, x);
    }
}

proof fn lemma_ins_sorted(s: Seq<IndexInfo>, x: IndexInfo)
    requires
        sorted_by_seq(s),
    ensures
        sorted_by_seq(ins_by_sequence(s, x)),
        forall|m: int|
            0 <= m < ins_by_sequence(s, x).len() ==> (#[trigger] ins_by_sequence(s, x)[m]) == x
                || s.contains(ins_by_sequence(s, x)[m]),
    decreases s.len(),
{
    if s.len() == 0 {
    } else if s[0].sequence <= x.sequence {
        assert(sorted_by_seq(s.drop_first()));
        lemma_ins_sorted(s.drop_first(), x);
        let tail = ins_by_sequence(s.drop_first(), x);
        let r = seq![s[0]] + tail;
        assert forall|i: int, j: int|
            0 <= i < j < r.len() implies (#[trigger] r[i]).sequence <= (
        #[trigger] r[j]).sequence by {
            if i == 0 {
                assert(r[j] == tail[j - 1]);
                if tail[j - 1] == x {
                } else {
                    assert(s.drop_first().contains(tail[j - 1]));
                    let m = choose|m: int|
                        0 <= m < s.drop_first().len() && s.drop_first()[m] == tail[j - 1];
                    assert(s[m + 1] == tail[j - 1]);
                    assert(s[0].sequence <= s[m + 1].sequence);
                }
            } else {
                assert(r[i] == tail[i - 1] && r[j] == tail[j - 1]);
            }
        }
        assert forall|m: int|
            0 <= m < r.len() implies (#[trigger] r[m]) == x || s.contains(r[m]) by {
            if m == 0 {
                assert(s[0] == r[0]);
                assert(s.contains(r[0]));
            } else if r[m] != x {
                assert(s.drop_first().contains(r[m]));
                let q = choose|q: int|
                    0 <= q < s.drop_first().len() && s.drop_first()[q] == r[m];
                assert(s[q + 1] == r[m]);
                assert(s.contains(r[m]));
            }
        }
    } else {
        let r = seq![x] + s;
        assert forall|i: int, j: int|
            0 <= i < j < r.len() implies (#[trigger] r[i]).sequence <= (
        #[trigger] r[j]).sequence by {
            if i == 0 {
                assert(r[j] == s[j - 1]);
                if j - 1 > 0 {
                    assert(s[0].sequence <= s[j - 1].sequence);
                }
            } else {
                assert(r[i] == s[i - 1] && r[j] == s[j - 1]);
            }
        }
        assert forall|m: int|
            0 <= m < r.len() implies (#[trigger] r[m]) == x || s.contains(r[m]) by {
            if m > 0 {
                assert(r[m] == s[m - 1]);
                assert(s.contains(r[m]));
            }
        }
    }
}

proof fn lemma_sort_by_sequence_ensures(s: Seq<IndexInfo>)
    ensures
        sorted_by_seq(sort_by_sequence(s)),
        sort_by_sequence(s).to_multiset() =~= s.to_multiset(),
    decreases s.len(),
{
    broadcast use vstd::seq_lib::group_to_multiset_ensures;
    broadcast use vstd::multiset::group_multiset_axioms;

    if s.len() > 0 {
        lemma_sort_by_sequence_ensures(s.drop_last());
        lemma_ins_sorted(sort_by_sequence(s.drop_last()), s.last());
        lemma_ins_multiset(sort_by_sequence(s.drop_last()), s.last());
        assert(s.drop_last().push(s.last()) =~= s);
        assert(s.drop_last().push(s.last()).to_multiset() =~= s.drop_last().to_multiset().insert(
            s.last(),
        ));
    }
}

proof fn lemma_distinct_transfer(x: Seq<IndexInfo>, s: Seq<IndexInfo>)
    requires
        x.to_multiset() == s.to_multiset(),
        distinct_sequences(s),
    ensures
        distinct_sequences(x),
{
    broadcast use vstd::seq_lib::group_to_multiset_ensures;
    broadcast use vstd::multiset::group_multiset_axioms;

    assert forall|i: int, j: int|
        0 <= i < j < x.len() implies (#[trigger] x[i]).sequence != (
    #[trigger] x[j]).sequence by {
        if x[i].sequence == x[j].sequence {
            if x[i] == x[j] {
                // the element occurs at least twice, so it does in `s` too
                assert(x.remove(j).to_multiset() =~= x.to_multiset().remove(x[j]));
                assert(x.remove(j)[i] == x[i]);
                assert(x.remove(j).contains(x[i]));
                assert(x.to_multiset().remove(x[j]).count(x[i]) > 0);
                assert(s.to_multiset().count(x[i]) >= 2);
                assert(s.contains(x[i]));
                let p = choose|p: int| 0 <= p < s.len() && s[p] == x[i];
                assert(s.remove(p).to_multiset() =~= s.to_multiset().remove(s[p]));
                assert(s.remove(p).to_multiset().count(x[i]) > 0);
                assert(s.remove(p).contains(x[i]));
                let q0 = choose|q0: int| 0 <= q0 < s.remove(p).len() && s.remove(p)[q0] == x[i];
                let q = if q0 < p {
                    q0
                } else {
                    q0 + 1
                };
                assert(s[q] == s.remove(p)[q0]);
                assert(q != p);
                assert(s[p].sequence == s[q].sequence);
                assert(false);
            } else {
                assert(x.contains(x[i]) && x.contains(x[j]));
                assert(s.to_multiset().count(x[i]) > 0);
                assert(s.to_multiset().count(x[j]) > 0);
                assert(s.contains(x[i]) && s.contains(x[j]));
                let p = choose|p: int| 0 <= p < s.len() && s[p] == x[i];
                let q = choose|q: int| 0 <= q < s.len() && s[q] == x[j];
                assert(p != q);
                assert(s[p].sequence == s[q].sequence);
                assert(false);
            }
        }
    }
}

proof fn lemma_sorted_unique_by_sequence(x: Seq<IndexInfo>, y: Seq<IndexInfo>)
    requires
        sorted_by_seq(x),
        sorted_by_seq(y),
        distinct_sequences(x),
        x.to_multiset() == y.to_multiset(),
    ensures
        x == y,
    decreases x.len(),
{
    broadcast use vstd::seq_lib::group_to_multiset_ensures;
    broadcast use vstd::multiset::group_multiset_axioms;

    assert(x.len() == x.to_multiset().len());
    assert(y.len() == y.to_multiset().len());
    if x.len() == 0 {
        assert(x =~= y);
    } else {
        assert(y.contains(y[0]));
        assert(x.to_multiset().count(y[0]) > 0);
        assert(x.contains(y[0]));
        let i = choose|i: int| 0 <= i < x.len() && x[i] == y[0];
        assert(x.contains(x[0]));
        assert(y.to_multiset().count(x[0]) > 0);
        assert(y.contains(x[0]));
        let j = choose|j: int| 0 <= j < y.len() && y[j] == x[0];
        assert(x[0].sequence <= x[i].sequence);
        assert(y[0].sequence <= y[j].sequence);
        assert(x[0].sequence == y[0].sequence);
        assert(i == 0);
        assert(x[0] == y[0]);
        assert(x.drop_first() =~= x.remove(0));
        assert(y.drop_first() =~= y.remove(0));
        assert(x.remove(0).to_multiset() =~= x.to_multiset().remove(x[0]));
        assert(y.remove(0).to_multiset() =~= y.to_multiset().remove(y[0]));
        assert(sorted_by_seq(x.drop_first()));
        assert(sorted_by_seq(y.drop_first()));
        assert(distinct_sequences(x.drop_first()));
        lemma_sorted_unique_by_sequence(x.drop_first(), y.drop_first());
        assert forall|m: int| 0 <= m < x.len() implies x[m] == y[m] by {
            if m > 0 {
                assert(x[m] == x.drop_first()[m - 1]);
                assert(y[m] == y.drop_first()[m - 1]);
            }
        }
        assert(x =~= y);
    }
}

proof fn lemma_bucket_cell_parts(
    s1: Seq<IndexInfo>,
    s2: Seq<IndexInfo>,
    k: (Seq<char>, Seq<char>, Seq<char>),
    d: Deploy,
)
    requires
        s1.to_multiset() == s2.to_multiset(),
        distinct_sequences_within_groups(s1),
    ensures
        deploy_facts(s1.filter(|c: IndexInfo| index_key(c) == k), d).len() == deploy_facts(
            s2.filter(|c: IndexInfo| index_key(c) == k),
            d,
        ).len(),
        index_render(s1.filter(|c: IndexInfo| index_key(c) == k), d) == index_render(
            s2.filter(|c: IndexInfo| index_key(c) == k),
            d,
        ),
{
    broadcast use vstd::seq_lib::group_to_multiset_ensures;
    broadcast use vstd::multiset::group_multiset_axioms;

    let kp = |c: IndexInfo| index_key(c) == k;
    let dp = |i: IndexInfo| index_in_deploy(i, d);
    let b1 = s1.filter(kp);
    let b2 = s2.filter(kp);
    lemma_filter_to_multiset(s1, kp);
    lemma_filter_to_multiset(s2, kp);
    assert(b1.to_multiset() =~= b2.to_multiset());
    let f1 = b1.filter(dp);
    let f2 = b2.filter(dp);
    assert(deploy_facts(b1, d) == f1);
    assert(deploy_facts(b2, d) == f2);
    lemma_filter_to_multiset(b1, dp);
    lemma_filter_to_multiset(b2, dp);
    assert(f1.to_multiset() =~= f2.to_multiset());
    assert(f1.len() == f1.to_multiset().len());
    assert(f2.len() == f2.to_multiset().len());
    lemma_distinct_in_bucket(s1, k, d);
    lemma_index_render_order_independent(f1, f2);
}

proof fn lemma_index_forms_equal(b1: Seq<IndexInfo>, b2: Seq<IndexInfo>, ds: Seq<Deploy>)
    requires
        forall|d: Deploy| #[trigger] index_render(b1, d) == index_render(b2, d),
    ensures
        crate::reconcile::index_forms(b1, ds) == crate::reconcile::index_forms(b2, ds),
    decreases ds.len(),
{
    if ds.len() > 0 {
        lemma_index_forms_equal(b1, b2, ds.drop_last());
        assert(index_render(b1, ds.last()) == index_render(b2, ds.last()));
    }
}

proof fn lemma_index_cells_equal(
    b1: Seq<IndexInfo>,
    b2: Seq<IndexInfo>,
    ds: Seq<Deploy>,
    base: Seq<char>,
)
    requires
        forall|d: Deploy| #[trigger] index_render(b1, d) == index_render(b2, d),
        forall|d: Deploy|
            #[trigger] deploy_facts(b1, d).len() == deploy_facts(b2, d).len(),
    ensures
        crate::report::index_cells(b1, ds, base) == crate::report::index_cells(b2, ds, base),
    decreases ds.len(),
{
    if ds.len() > 0 {
        lemma_index_cells_equal(b1, b2, ds.drop_last(), base);
        assert(index_render(b1, ds.last()) == index_render(b2, ds.last()));
        assert(deploy_facts(b1, ds.last()).len() == deploy_facts(b2, ds.last()).len());
        assert(crate::report::index_cell(b1, ds.last(), base) == crate::report::index_cell(
            b2,
            ds.last(),
            base,
        ));
    }
}

proof fn lemma_index_rows_equal(
    ks: Seq<(Seq<char>, Seq<char>, Seq<char>)>,
    s1: Seq<IndexInfo>,
    s2: Seq<IndexInfo>,
    ds: Seq<Deploy>,
)
    requires
        s1.to_multiset() == s2.to_multiset(),
        distinct_sequences_within_groups(s1),
    ensures
        crate::report::index_rows(ks, s1, ds) == crate::report::index_rows(ks, s2, ds),
    decreases ks.len(),
{
    if ks.len() > 0 {
        lemma_index_rows_equal(ks.drop_last(), s1, s2, ds);
        let k = ks.last();
        let p1 = |c: IndexInfo| index_key(c) == ks.last();
        let p2 = |c: IndexInfo| index_key(c) == k;
        assert forall|c: IndexInfo| #[trigger] p1(c) == p2(c) by {}
        assert(p1 =~= p2);
        let b1 = s1.filter(p2);
        let b2 = s2.filter(p2);
        assert forall|d: Deploy| #[trigger] index_render(b1, d) == index_render(b2, d) by {
            lemma_bucket_cell_parts(s1, s2, k, d);
        }
        assert forall|d: Deploy|
            #[trigger] deploy_facts(b1, d).len() == deploy_facts(b2, d).len() by {
            lemma_bucket_cell_parts(s1, s2, k, d);
        }
        lemma_index_forms_equal(b1, b2, ds);
        assert(crate::reconcile::most_used_index(b1, ds) == crate::reconcile::most_used_index(
            b2,
            ds,
        ));
        lemma_index_cells_equal(b1, b2, ds, crate::reconcile::most_used_index(b1, ds));
        assert(crate::report::index_row(k, b1, ds) == crate::report::index_row(k, b2, ds));
        assert(s1.filter(p1) == b1);
        assert(s2.filter(p1) == b2);
    }
}

/// Index ordering independence, at the level of the whole report: two
/// collections of the same index facts (the same multiset), with pairwise
/// distinct sequence positions within every (index, deployment) group,
/// produce the identical report text, for any deployment registry.
pub proof fn lemma_index_report_order_independent(
    s1: Seq<IndexInfo>,
    s2: Seq<IndexInfo>,
    ds: Seq<Deploy>,
)
    requires
        s1.to_multiset() == s2.to_multiset(),
        distinct_sequences_within_groups(s1),
    ensures
        index_report(s1, ds) == index_report(s2, ds),
{
    lemma_index_keys_permutation(s1, s2);
    lemma_index_rows_equal(index_keys(s1), s1, s2, ds);
}

/// Index ordering independence: two collections of the same index entries —
/// the same multiset of facts, with pairwise distinct sequence positions —
/// sort to the same sequence and render the same form, whatever order they
/// were collected in.
pub proof fn lemma_index_render_order_independent(s1: Seq<IndexInfo>, s2: Seq<IndexInfo>)
    requires
        s1.to_multiset() == s2.to_multiset(),
        distinct_sequences(s1),
    ensures
        sort_by_sequence(s1) == sort_by_sequence(s2),
        render_sorted(sort_by_sequence(s1)) == render_sorted(sort_by_sequence(s2)),
{
    lemma_sort_by_sequence_ensures(s1);
    lemma_sort_by_sequence_ensures(s2);
    lemma_distinct_transfer(sort_by_sequence(s1), s1);
    lemma_sorted_unique_by_sequence(sort_by_sequence(s1), sort_by_sequence(s2));
}

} // verus!

