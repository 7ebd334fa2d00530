//! Grouping of facts by schema-object identity: each distinct
//! (schema, table, name) key, in ascending order, with the bucket of all
//! facts that carry it, in input order.

use vstd::prelude::*;

use crate::models::{
    column_key, index_key, ucol_key, uidx_key, ColumnInfo, IndexInfo, UniqueColumn, UniqueIndex,
};
use crate::reconcile::{lemma_filter_none, lemma_filter_push};
use crate::text::{
    lemma_lex3_lt_connected, lemma_lex3_lt_irrefl, lemma_lex3_lt_trans, lex3_lt, str_eq, str_lt,
};

verus! {

/// Inserts a key into an ascending key sequence, keeping it ascending; a key
/// already present is not added again.
pub open spec fn insert_key(
    ks: Seq<(Seq<char>, Seq<char>, Seq<char>)>,
    k: (Seq<char>, Seq<char>, Seq<char>),
) -> Seq<(Seq<char>, Seq<char>, Seq<char>)>
    decreases ks.len(),
{
    if ks.len() == 0 {
        seq![k]
    } else if lex3_lt(ks[0], k) {
        seq![ks[0]] + insert_key(ks.drop_first(), k)
    } else if ks[0] == k {
        ks
    } else {
        seq![k] + ks
    }
}

/// The distinct grouping keys of a sequence of column facts, ascending.
pub open spec fn column_keys(list: Seq<ColumnInfo>) -> Seq<(Seq<char>, Seq<char>, Seq<char>)>
    decreases list.len(),
{
    if list.len() == 0 {
        Seq::empty()
    } else {
        insert_key(column_keys(list.drop_last()), column_key(list.last()))
    }
}

/// The distinct grouping keys of a sequence of index facts, ascending.
pub open spec fn index_keys(list: Seq<IndexInfo>) -> Seq<(Seq<char>, Seq<char>, Seq<char>)>
    decreases list.len(),
{
    if list.len() == 0 {
        Seq::empty()
    } else {
        insert_key(index_keys(list.drop_last()), index_key(list.last()))
    }
}

/// Whether a key sequence is strictly ascending.
pub open spec fn keys_sorted(ks: Seq<(Seq<char>, Seq<char>, Seq<char>)>) -> bool {
    forall|i: int, j: int| 0 <= i < j < ks.len() ==> lex3_lt(#[trigger] ks[i], #[trigger] ks[j])
}

proof fn lemma_insert_key_at(
    ks: Seq<(Seq<char>, Seq<char>, Seq<char>)>,
    k: (Seq<char>, Seq<char>, Seq<char>),
    j: int,
)
    requires
        0 <= j <= ks.len(),
        forall|m: int| 0 <= m < j ==> lex3_lt(#[trigger] ks[m], k),
        j == ks.len() || !lex3_lt(ks[j], k),
    ensures
        insert_key(ks, k) == (if j < ks.len() && ks[j] == k {
            ks
        } else {
            ks.insert(j, k)
        }),
    decreases j,
{
    if j == 0 {
        if ks.len() == 0 {
            assert(insert_key(ks, k) =~= ks.insert(0, k));
        } else if ks[0] == k {
            lemma_lex3_lt_irrefl(k);
        } else {
            assert(seq![k] + ks =~= ks.insert(0, k));
        }
    } else {
        lemma_insert_key_at(ks.drop_first(), k, j - 1);
        if j < ks.len() && ks[j] == k {
            assert(seq![ks[0]] + ks.drop_first() =~= ks);
        } else {
            assert(seq![ks[0]] + ks.drop_first().insert(j - 1, k) =~= ks.insert(j, k));
        }
    }
}

proof fn lemma_column_keys_push(s: Seq<ColumnInfo>, x: ColumnInfo)
    ensures
        column_keys(s.push(x)) == insert_key(column_keys(s), column_key(x)),
{
    assert(s.push(x).drop_last() =~= s);
    assert(s.push(x).last() == x);
}

proof fn lemma_index_keys_push(s: Seq<IndexInfo>, x: IndexInfo)
    ensures
        index_keys(s.push(x)) == insert_key(index_keys(s), index_key(x)),
{
    assert(s.push(x).drop_last() =~= s);
    assert(s.push(x).last() == x);
}

/// The keys of a sequence of column groups.
pub open spec fn col_group_keys(gs: Seq<(UniqueColumn, Vec<ColumnInfo>)>) -> Seq<
    (Seq<char>, Seq<char>, Seq<char>),
> {
    gs.map_values(|g: (UniqueColumn, Vec<ColumnInfo>)| ucol_key(g.0))
}

/// The keys of a sequence of index groups.
pub open spec fn idx_group_keys(gs: Seq<(UniqueIndex, Vec<IndexInfo>)>) -> Seq<
    (Seq<char>, Seq<char>, Seq<char>),
> {
    gs.map_values(|g: (UniqueIndex, Vec<IndexInfo>)| uidx_key(g.0))
}

/// Every group holds exactly the facts of `list` that carry its key, in
/// input order.
pub open spec fn col_buckets_match(
    gs: Seq<(UniqueColumn, Vec<ColumnInfo>)>,
    list: Seq<ColumnInfo>,
) -> bool {
    forall|gi: int|
        0 <= gi < gs.len() ==> (#[trigger] gs[gi]).1@ == list.filter(
            |c: ColumnInfo| column_key(c) == ucol_key(gs[gi].0),
        )
}

/// Every group holds exactly the index facts of `list` that carry its key,
/// in input order.
pub open spec fn idx_buckets_match(
    gs: Seq<(UniqueIndex, Vec<IndexInfo>)>,
    list: Seq<IndexInfo>,
) -> bool {
    forall|gi: int|
        0 <= gi < gs.len() ==> (#[trigger] gs[gi]).1@ == list.filter(
            |c: IndexInfo| index_key(c) == uidx_key(gs[gi].0),
        )
}

fn ucol_lt_col(u: &UniqueColumn, c: &ColumnInfo) -> (r: bool)
    ensures
        r == lex3_lt(ucol_key(*u), column_key(*c)),
{
    if str_lt(u.schema.as_str(), c.schema.as_str()) {
        true
    } else if !str_eq(u.schema.as_str(), c.schema.as_str()) {
        false
    } else if str_lt(u.table.as_str(), c.table.as_str()) {
        true
    } else if !str_eq(u.table.as_str(), c.table.as_str()) {
        false
    } else {
        str_lt(u.column_name.as_str(), c.column_name.as_str())
    }
}

fn ucol_eq_col(u: &UniqueColumn, c: &ColumnInfo) -> (r: bool)
    ensures
        r == (ucol_key(*u) == column_key(*c)),
{
    let s = str_eq(u.schema.as_str(), c.schema.as_str());
    let t = str_eq(u.table.as_str(), c.table.as_str());
    let n = str_eq(u.column_name.as_str(), c.column_name.as_str());
    s && t && n
}

fn uidx_lt_idx(u: &UniqueIndex, c: &IndexInfo) -> (r: bool)
    ensures
        r == lex3_lt(uidx_key(*u), index_key(*c)),
{
    if str_lt(u.schema.as_str(), c.schema.as_str()) {
        true
    } else if !str_eq(u.schema.as_str(), c.schema.as_str()) {
        false
    } else if str_lt(u.table.as_str(), c.table.as_str()) {
        true
    } else if !str_eq(u.table.as_str(), c.table.as_str()) {
        false
    } else {
        str_lt(u.index_name.as_str(), c.index_name.as_str())
    }
}

fn uidx_eq_idx(u: &UniqueIndex, c: &IndexInfo) -> (r: bool)
    ensures
        r == (uidx_key(*u) == index_key(*c)),
{
    let s = str_eq(u.schema.as_str(), c.schema.as_str());
    let t = str_eq(u.table.as_str(), c.table.as_str());
    let n = str_eq(u.index_name.as_str(), c.index_name.as_str());
    s && t && n
}

/// Whether some group's key is `k`.
pub open spec fn col_key_in_groups(
    gs: Seq<(UniqueColumn, Vec<ColumnInfo>)>,
    k: (Seq<char>, Seq<char>, Seq<char>),
) -> bool {
    exists|gi: int| 0 <= gi < gs.len() && ucol_key((#[trigger] gs[gi]).0) == k
}

/// Whether some group's key is `k`.
pub open spec fn idx_key_in_groups(
    gs: Seq<(UniqueIndex, Vec<IndexInfo>)>,
    k: (Seq<char>, Seq<char>, Seq<char>),
) -> bool {
    exists|gi: int| 0 <= gi < gs.len() && uidx_key((#[trigger] gs[gi]).0) == k
}

/// Groups column facts by (schema, table, column name): one group per
/// distinct key, keys strictly ascending, each bucket the facts with that key
/// in input order.
pub fn group_columns(list: &Vec<ColumnInfo>) -> (groups: Vec<(UniqueColumn, Vec<ColumnInfo>)>)
    ensures
        col_group_keys(groups@) == column_keys(list@),
        keys_sorted(col_group_keys(groups@)),
        col_buckets_match(groups@, list@),
{
    let mut groups: Vec<(UniqueColumn, Vec<ColumnInfo>)> = Vec::new();
    let mut i: usize = 0;
    proof {
        assert(list@.take(0) =~= Seq::<ColumnInfo>::empty());
        assert(col_group_keys(groups@) =~= column_keys(list@.take(0)));
    }
    while i < list.len()
        invariant
            i <= list@.len(),
            col_group_keys(groups@) == column_keys(list@.take(i as int)),
            keys_sorted(col_group_keys(groups@)),
            col_buckets_match(groups@, list@.take(i as int)),
            forall|ci: int|
                0 <= ci < i ==> col_key_in_groups(groups@, column_key(#[trigger] list@[ci])),
        decreases list@.len() - i,
    {
        let ghost gk = col_group_keys(groups@);
        let ghost k = column_key(list@[i as int]);
        let ghost prefix = list@.take(i as int);
        proof {
            assert(list@.take(i + 1) =~= prefix.push(list@[i as int]));
        }
        let mut j: usize = 0;
        while j < groups.len() && ucol_lt_col(&groups[j].0, &list[i])
            invariant
                i < list@.len(),
                j <= groups@.len(),
                k == column_key(list@[i as int]),
                gk == col_group_keys(groups@),
                forall|m: int| 0 <= m < j ==> lex3_lt(#[trigger] gk[m], k),
            decreases groups@.len() - j,
        {
            j = j + 1;
        }
        proof {
            lemma_column_keys_push(prefix, list@[i as int]);
            assert(column_keys(list@.take(i + 1)) == insert_key(gk, k));
        }
        let present = j < groups.len() && ucol_eq_col(&groups[j].0, &list[i]);
        let ghost old_groups = groups@;
        if present {
            let mut g = groups.remove(j);
            g.1.push(list[i].duplicate());
            groups.insert(j, g);
            proof {
                assert(groups@ =~= old_groups.update(j as int, (old_groups[j as int].0, g.1)));
                assert(col_group_keys(groups@) =~= gk);
                lemma_insert_key_at(gk, k, j as int);
                assert(column_keys(list@.take(i + 1)) == insert_key(gk, k));
                assert forall|gi: int| 0 <= gi < groups@.len() implies (#[trigger] groups@[gi]).1@
                    == list@.take(i + 1).filter(
                    |c: ColumnInfo| column_key(c) == ucol_key(groups@[gi].0),
                ) by {
                    let pred = |c: ColumnInfo| column_key(c) == ucol_key(groups@[gi].0);
                    lemma_filter_push(prefix, pred, list@[i as int]);
                    assert(ucol_key(groups@[gi].0) == gk[gi]);
                    assert(old_groups[gi].1@ == prefix.filter(pred));
                    if gi == j {
                        assert(pred(list@[i as int]));
                        assert(groups@[gi].1@ == old_groups[gi].1@.push(list@[i as int]));
                    } else {
                        lemma_lex3_lt_irrefl(k);
                        if gi > j {
                            assert(lex3_lt(gk[j as int], gk[gi]));
                            lemma_lex3_lt_irrefl(gk[gi]);
                        }
                        assert(gk[gi] != k);
                        assert(!pred(list@[i as int]));
                        assert(groups@[gi].1@ == old_groups[gi].1@);
                    }
                }
                assert forall|ci: int|
                    0 <= ci < i + 1 implies col_key_in_groups(
                    groups@,
                    column_key(#[trigger] list@[ci]),
                ) by {
                    if ci < i {
                        let gi0 = choose|gi0: int|
                            0 <= gi0 < old_groups.len() && ucol_key(
                                (#[trigger] old_groups[gi0]).0,
                            ) == column_key(list@[ci]);
                        assert(ucol_key(groups@[gi0].0) == column_key(list@[ci]));
                    } else {
                        assert(ucol_key(groups@[j as int].0) == k);
                    }
                }
            }
        } else {
            proof {
                if j < groups@.len() {
                    if !lex3_lt(k, gk[j as int]) {
                        lemma_lex3_lt_connected(k, gk[j as int]);
                        lemma_lex3_lt_irrefl(k);
                        assert(false);
                    }
                }
                lemma_insert_key_at(gk, k, j as int);
                assert(column_keys(list@.take(i + 1)) == gk.insert(j as int, k));
            }
            let uc = UniqueColumn {
                schema: list[i].schema.clone(),
                table: list[i].table.clone(),
                column_name: list[i].column_name.clone(),
            };
            let mut b: Vec<ColumnInfo> = Vec::new();
            b.push(list[i].duplicate());
            groups.insert(j, (uc, b));
            proof {
                assert(ucol_key(groups@[j as int].0) == k);
                assert(col_group_keys(groups@) =~= gk.insert(j as int, k));
                // no earlier key equals k
                assert forall|m: int| 0 <= m < gk.len() implies gk[m] != k by {
                    lemma_lex3_lt_irrefl(k);
                    if m >= j {
                        if m > j {
                            assert(lex3_lt(gk[j as int], gk[m]));
                            lemma_lex3_lt_trans(k, gk[j as int], gk[m]);
                        }
                        lemma_lex3_lt_irrefl(gk[m]);
                    }
                }
                // sortedness of the new key sequence
                let nk = col_group_keys(groups@);
                assert forall|p: int, q: int|
                    0 <= p < q < nk.len() implies lex3_lt(nk[p], nk[q]) by {
                    if q < j {
                    } else if p < j && q == j {
                    } else if p == j && q > j {
                        if q - 1 > j {
                            lemma_lex3_lt_trans(k, gk[j as int], gk[q - 1]);
                        }
                    } else if p < j && q > j {
                    } else {
                    }
                }
                // no fact of the prefix carries the new key
                assert forall|m: int| 0 <= m < prefix.len() implies column_key(
                    #[trigger] prefix[m],
                ) != k by {
                    assert(col_key_in_groups(old_groups, column_key(list@[m])));
                    let gi0 = choose|gi0: int|
                        0 <= gi0 < old_groups.len() && ucol_key((#[trigger] old_groups[gi0]).0)
                            == column_key(list@[m]);
                    assert(gk[gi0] == column_key(prefix[m]));
                }
                // buckets
                assert forall|gi: int| 0 <= gi < groups@.len() implies (#[trigger] groups@[gi]).1@
                    == list@.take(i + 1).filter(
                    |c: ColumnInfo| column_key(c) == ucol_key(groups@[gi].0),
                ) by {
                    let pred = |c: ColumnInfo| column_key(c) == ucol_key(groups@[gi].0);
                    lemma_filter_push(prefix, pred, list@[i as int]);
                    if gi == j {
                        assert(ucol_key(groups@[gi].0) == k);
                        lemma_filter_none(prefix, pred);
                        assert(pred(list@[i as int]));
                        assert(groups@[gi].1@ =~= Seq::<ColumnInfo>::empty().push(
                            list@[i as int],
                        ));
                    } else {
                        let oi = if gi < j {
                            gi
                        } else {
                            gi - 1
                        };
                        assert(groups@[gi] == old_groups[oi]);
                        assert(ucol_key(groups@[gi].0) == gk[oi]);
                        assert(gk[oi] != k);
                        assert(!pred(list@[i as int]));
                        assert(old_groups[oi].1@ == prefix.filter(pred));
                    }
                }
                // completeness
                assert forall|ci: int|
                    0 <= ci < i + 1 implies col_key_in_groups(
                    groups@,
                    column_key(#[trigger] list@[ci]),
                ) by {
                    if ci < i {
                        let gi0 = choose|gi0: int|
                            0 <= gi0 < old_groups.len() && ucol_key(
                                (#[trigger] old_groups[gi0]).0,
                            ) == column_key(list@[ci]);
                        if gi0 < j {
                            assert(ucol_key(groups@[gi0].0) == column_key(list@[ci]));
                        } else {
                            assert(ucol_key(groups@[gi0 + 1].0) == column_key(list@[ci]));
                        }
                    } else {
                        assert(ucol_key(groups@[j as int].0) == k);
                    }
                }
            }
        }
        i = i + 1;
    }
    proof {
        assert(list@.take(list@.len() as int) =~= list@);
    }
    groups
}

/// Groups index facts by (schema, table, index name): one group per
/// distinct key, keys strictly ascending, each bucket the facts with that key
/// in input order.
pub fn group_indices(list: &Vec<IndexInfo>) -> (groups: Vec<(UniqueIndex, Vec<IndexInfo>)>)
    ensures
        idx_group_keys(groups@) == index_keys(list@),
        keys_sorted(idx_group_keys(groups@)),
        idx_buckets_match(groups@, list@),
{
    let mut groups: Vec<(UniqueIndex, Vec<IndexInfo>)> = Vec::new();
    let mut i: usize = 0;
    proof {
        assert(list@.take(0) =~= Seq::<IndexInfo>::empty());
        assert(idx_group_keys(groups@) =~= index_keys(list@.take(0)));
    }
    while i < list.len()
        invariant
            i <= list@.len(),
            idx_group_keys(groups@) == index_keys(list@.take(i as int)),
            keys_sorted(idx_group_keys(groups@)),
            idx_buckets_match(groups@, list@.take(i as int)),
            forall|ci: int|
                0 <= ci < i ==> idx_key_in_groups(groups@, index_key(#[trigger] list@[ci])),
        decreases list@.len() - i,
    {
        let ghost gk = idx_group_keys(groups@);
        let ghost k = index_key(list@[i as int]);
        let ghost prefix = list@.take(i as int);
        proof {
            assert(list@.take(i + 1) =~= prefix.push(list@[i as int]));
        }
        let mut j: usize = 0;
        while j < groups.len() && uidx_lt_idx(&groups[j].0, &list[i])
            invariant
                i < list@.len(),
                j <= groups@.len(),
                k == index_key(list@[i as int]),
                gk == idx_group_keys(groups@),
                forall|m: int| 0 <= m < j ==> lex3_lt(#[trigger] gk[m], k),
            decreases groups@.len() - j,
        {
            j = j + 1;
        }
        proof {
            lemma_index_keys_push(prefix, list@[i as int]);
            assert(index_keys(list@.take(i + 1)) == insert_key(gk, k));
        }
        let present = j < groups.len() && uidx_eq_idx(&groups[j].0, &list[i]);
        let ghost old_groups = groups@;
        if present {
            let mut g = groups.remove(j);
            g.1.push(list[i].duplicate());
            groups.insert(j, g);
            proof {
                assert(groups@ =~= old_groups.update(j as int, (old_groups[j as int].0, g.1)));
                assert(idx_group_keys(groups@) =~= gk);
                lemma_insert_key_at(gk, k, j as int);
                assert(index_keys(list@.take(i + 1)) == insert_key(gk, k));
                assert forall|gi: int| 0 <= gi < groups@.len() implies (#[trigger] groups@[gi]).1@
                    == list@.take(i + 1).filter(
                    |c: IndexInfo| index_key(c) == uidx_key(groups@[gi].0),
                ) by {
                    let pred = |c: IndexInfo| index_key(c) == uidx_key(groups@[gi].0);
                    lemma_filter_push(prefix, pred, list@[i as int]);
                    assert(uidx_key(groups@[gi].0) == gk[gi]);
                    assert(old_groups[gi].1@ == prefix.filter(pred));
                    if gi == j {
                        assert(pred(list@[i as int]));
                        assert(groups@[gi].1@ == old_groups[gi].1@.push(list@[i as int]));
                    } else {
                        lemma_lex3_lt_irrefl(k);
                        if gi > j {
                            assert(lex3_lt(gk[j as int], gk[gi]));
                            lemma_lex3_lt_irrefl(gk[gi]);
                        }
                        assert(gk[gi] != k);
                        assert(!pred(list@[i as int]));
                        assert(groups@[gi].1@ == old_groups[gi].1@);
                    }
                }
                assert forall|ci: int|
                    0 <= ci < i + 1 implies idx_key_in_groups(
                    groups@,
                    index_key(#[trigger] list@[ci]),
                ) by {
                    if ci < i {
                        let gi0 = choose|gi0: int|
                            0 <= gi0 < old_groups.len() && uidx_key(
                                (#[trigger] old_groups[gi0]).0,
                            ) == index_key(list@[ci]);
                        assert(uidx_key(groups@[gi0].0) == index_key(list@[ci]));
                    } else {
                        assert(uidx_key(groups@[j as int].0) == k);
                    }
                }
            }
        } else {
            proof {
                if j < groups@.len() {
                    if !lex3_lt(k, gk[j as int]) {
                        lemma_lex3_lt_connected(k, gk[j as int]);
                        lemma_lex3_lt_irrefl(k);
                        assert(false);
                    }
                }
                lemma_insert_key_at(gk, k, j as int);
                assert(index_keys(list@.take(i + 1)) == gk.insert(j as int, k));
            }
            let uc = UniqueIndex {
                schema: list[i].schema.clone(),
                table: list[i].table.clone(),
                index_name: list[i].index_name.clone(),
            };
            let mut b: Vec<IndexInfo> = Vec::new();
            b.push(list[i].duplicate());
            groups.insert(j, (uc, b));
            proof {
                assert(uidx_key(groups@[j as int].0) == k);
                assert(idx_group_keys(groups@) =~= gk.insert(j as int, k));
                // no earlier key equals k
                assert forall|m: int| 0 <= m < gk.len() implies gk[m] != k by {
                    lemma_lex3_lt_irrefl(k);
                    if m >= j {
                        if m > j {
                            assert(lex3_lt(gk[j as int], gk[m]));
                            lemma_lex3_lt_trans(k, gk[j as int], gk[m]);
                        }
                        lemma_lex3_lt_irrefl(gk[m]);
                    }
                }
                // sortedness of the new key sequence
                let nk = idx_group_keys(groups@);
                assert forall|p: int, q: int|
                    0 <= p < q < nk.len() implies lex3_lt(nk[p], nk[q]) by {
                    if q < j {
                    } else if p < j && q == j {
                    } else if p == j && q > j {
                        if q - 1 > j {
                            lemma_lex3_lt_trans(k, gk[j as int], gk[q - 1]);
                        }
                    } else if p < j && q > j {
                    } else {
                    }
                }
                // no fact of the prefix carries the new key
                assert forall|m: int| 0 <= m < prefix.len() implies index_key(
                    #[trigger] prefix[m],
                ) != k by {
                    assert(idx_key_in_groups(old_groups, index_key(list@[m])));
                    let gi0 = choose|gi0: int|
                        0 <= gi0 < old_groups.len() && uidx_key((#[trigger] old_groups[gi0]).0)
                            == index_key(list@[m]);
                    assert(gk[gi0] == index_key(prefix[m]));
                }
                // buckets
                assert forall|gi: int| 0 <= gi < groups@.len() implies (#[trigger] groups@[gi]).1@
                    == list@.take(i + 1).filter(
                    |c: IndexInfo| index_key(c) == uidx_key(groups@[gi].0),
                ) by {
                    let pred = |c: IndexInfo| index_key(c) == uidx_key(groups@[gi].0);
                    lemma_filter_push(prefix, pred, list@[i as int]);
                    if gi == j {
                        assert(uidx_key(groups@[gi].0) == k);
                        lemma_filter_none(prefix, pred);
                        assert(pred(list@[i as int]));
                        assert(groups@[gi].1@ =~= Seq::<IndexInfo>::empty().push(
                            list@[i as int],
                        ));
                    } else {
                        let oi = if gi < j {
                            gi
                        } else {
                            gi - 1
                        };
                        assert(groups@[gi] == old_groups[oi]);
                        assert(uidx_key(groups@[gi].0) == gk[oi]);
                        assert(gk[oi] != k);
                        assert(!pred(list@[i as int]));
                        assert(old_groups[oi].1@ == prefix.filter(pred));
                    }
                }
                // completeness
                assert forall|ci: int|
                    0 <= ci < i + 1 implies idx_key_in_groups(
                    groups@,
                    index_key(#[trigger] list@[ci]),
                ) by {
                    if ci < i {
                        let gi0 = choose|gi0: int|
                            0 <= gi0 < old_groups.len() && uidx_key(
                                (#[trigger] old_groups[gi0]).0,
                            ) == index_key(list@[ci]);
                        if gi0 < j {
                            assert(uidx_key(groups@[gi0].0) == index_key(list@[ci]));
                        } else {
                            assert(uidx_key(groups@[gi0 + 1].0) == index_key(list@[ci]));
                        }
                    } else {
                        assert(uidx_key(groups@[j as int].0) == k);
                    }
                }
            }
        }
        i = i + 1;
    }
    proof {
        assert(list@.take(list@.len() as int) =~= list@);
    }
    groups
}


} // verus!
