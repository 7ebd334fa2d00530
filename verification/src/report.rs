//! Rendering of the aligned diff tables: a header row naming each deployment,
//! then one row per schema object with one cell per deployment, deviating
//! cells marked with `**`. The whole report is specified as a function of the
//! fact lists and the deployment registry.

use vstd::prelude::*;
use vstd::string::StringExecFns;

use crate::grouping::{
    col_buckets_match, col_group_keys, column_keys, group_columns, group_indices,
    idx_buckets_match, idx_group_keys, index_keys,
};
use crate::models::{
    column_in_deploy, column_key, index_key, ColumnInfo, Deploy, IndexInfo,
};
use crate::reconcile::{
    column_format, column_render, collect_deploy_facts, deploy_facts, find_most_used_column,
    find_most_used_index, index_format, index_render, lemma_sort_by_sequence_len,
    most_used_column, most_used_index,
};
use crate::text::str_eq;

verus! {

/// The per-deployment header cells: `\t[environment country]` each.
pub open spec fn header_cells(ds: Seq<Deploy>) -> Seq<char>
    decreases ds.len(),
{
    if ds.len() == 0 {
        Seq::empty()
    } else {
        header_cells(ds.drop_last()) + "\t["@ + ds.last().environment@ + " "@
            + ds.last().country@ + "]"@
    }
}

/// The header row: the label columns, one cell per deployment, a newline.
pub open spec fn report_header(label: Seq<char>, ds: Seq<Deploy>) -> Seq<char> {
    label + header_cells(ds) + "\n"@
}

/// The first fact of the bucket observed in deployment `d`, if any.
pub open spec fn first_col_match(b: Seq<ColumnInfo>, d: Deploy) -> Option<ColumnInfo>
    decreases b.len(),
{
    if b.len() == 0 {
        None
    } else if column_in_deploy(b[0], d) {
        Some(b[0])
    } else {
        first_col_match(b.drop_first(), d)
    }
}

/// One column cell: the deployment's rendered form, prefixed with the
/// deviation marker when it differs from the baseline; an absent fact is an
/// empty cell, deviating exactly when the baseline is non-empty.
pub open spec fn column_cell(b: Seq<ColumnInfo>, d: Deploy, base: Seq<char>) -> Seq<char> {
    match first_col_match(b, d) {
        Some(c) => (if column_render(c) == base {
            "\t"@
        } else {
            "\t**"@
        }) + column_render(c),
        None => (if base.len() == 0 {
            "\t"@
        } else {
            "\t**"@
        }),
    }
}

/// The column cells of one row, in registry order.
pub open spec fn column_cells(b: Seq<ColumnInfo>, ds: Seq<Deploy>, base: Seq<char>) -> Seq<char>
    decreases ds.len(),
{
    if ds.len() == 0 {
        Seq::empty()
    } else {
        column_cells(b, ds.drop_last(), base) + column_cell(b, ds.last(), base)
    }
}

/// One report row for the column bucket `b` under key `k`.
pub open spec fn column_row(
    k: (Seq<char>, Seq<char>, Seq<char>),
    b: Seq<ColumnInfo>,
    ds: Seq<Deploy>,
) -> Seq<char> {
    k.0 + "\t"@ + k.1 + "\t"@ + k.2 + column_cells(b, ds, most_used_column(b, ds.len() as int))
        + "\n"@
}

/// The data rows of the column report, one per key in `ks`.
pub open spec fn column_rows(
    ks: Seq<(Seq<char>, Seq<char>, Seq<char>)>,
    columns: Seq<ColumnInfo>,
    ds: Seq<Deploy>,
) -> Seq<char>
    decreases ks.len(),
{
    if ks.len() == 0 {
        Seq::empty()
    } else {
        column_rows(ks.drop_last(), columns, ds) + column_row(
            ks.last(),
            columns.filter(|c: ColumnInfo| column_key(c) == ks.last()),
            ds,
        )
    }
}

/// The whole column report.
pub open spec fn column_report(columns: Seq<ColumnInfo>, ds: Seq<Deploy>) -> Seq<char> {
    report_header("Schema\tTable\tColumn"@, ds) + column_rows(column_keys(columns), columns, ds)
}

/// One index cell: rendered when the deployment has any entry of the index,
/// empty otherwise; the deviation marker as for columns.
pub open spec fn index_cell(b: Seq<IndexInfo>, d: Deploy, base: Seq<char>) -> Seq<char> {
    if deploy_facts(b, d).len() > 0 {
        "\t"@ + (if index_render(b, d) == base {
            Seq::<char>::empty()
        } else {
            "**"@
        }) + index_render(b, d)
    } else {
        "\t"@ + (if base.len() == 0 {
            Seq::<char>::empty()
        } else {
            "**"@
        })
    }
}

/// The index cells of one row, in registry order.
pub open spec fn index_cells(b: Seq<IndexInfo>, ds: Seq<Deploy>, base: Seq<char>) -> Seq<char>
    decreases ds.len(),
{
    if ds.len() == 0 {
        Seq::empty()
    } else {
        index_cells(b, ds.drop_last(), base) + index_cell(b, ds.last(), base)
    }
}

/// One report row for the index bucket `b` under key `k`.
pub open spec fn index_row(
    k: (Seq<char>, Seq<char>, Seq<char>),
    b: Seq<IndexInfo>,
    ds: Seq<Deploy>,
) -> Seq<char> {
    k.0 + "\t"@ + k.1 + "\t"@ + k.2 + index_cells(b, ds, most_used_index(b, ds)) + "\n"@
}

/// The data rows of the index report, one per key in `ks`.
pub open spec fn index_rows(
    ks: Seq<(Seq<char>, Seq<char>, Seq<char>)>,
    indices: Seq<IndexInfo>,
    ds: Seq<Deploy>,
) -> Seq<char>
    decreases ks.len(),
{
    if ks.len() == 0 {
        Seq::empty()
    } else {
        index_rows(ks.drop_last(), indices, ds) + index_row(
            ks.last(),
            indices.filter(|c: IndexInfo| index_key(c) == ks.last()),
            ds,
        )
    }
}

/// The whole index report.
pub open spec fn index_report(indices: Seq<IndexInfo>, ds: Seq<Deploy>) -> Seq<char> {
    report_header("Schema\tTable\tIndex"@, ds) + index_rows(index_keys(indices), indices, ds)
}

proof fn lemma_first_col_match_at(b: Seq<ColumnInfo>, d: Deploy, j: int)
    requires
        0 <= j <= b.len(),
        forall|m: int| 0 <= m < j ==> !column_in_deploy(#[trigger] b[m], d),
        j == b.len() || column_in_deploy(b[j], d),
    ensures
        first_col_match(b, d) == (if j < b.len() {
            Some(b[j])
        } else {
            None::<ColumnInfo>
        }),
    decreases j,
{
    if j == 0 {
    } else {
        lemma_first_col_match_at(b.drop_first(), d, j - 1);
    }
}

fn column_in_deploy_exec(c: &ColumnInfo, d: &Deploy) -> (r: bool)
    ensures
        r == column_in_deploy(*c, *d),
{
    let e = str_eq(c.environment.as_str(), d.environment.as_str());
    let y = str_eq(c.country.as_str(), d.country.as_str());
    e && y
}

fn find_column_for_deploy(b: &Vec<ColumnInfo>, d: &Deploy) -> (r: Option<usize>)
    ensures
        match r {
            Some(ix) => ix < b@.len() && first_col_match(b@, *d) == Some(b@[ix as int]),
            None => first_col_match(b@, *d) is None,
        },
{
    let mut j: usize = 0;
    while j < b.len()
        invariant
            j <= b@.len(),
            forall|m: int| 0 <= m < j ==> !column_in_deploy(#[trigger] b@[m], *d),
        decreases b@.len() - j,
    {
        if column_in_deploy_exec(&b[j], d) {
            proof {
                lemma_first_col_match_at(b@, *d, j as int);
            }
            return Some(j);
        }
        j = j + 1;
    }
    proof {
        lemma_first_col_match_at(b@, *d, b@.len() as int);
    }
    None
}

fn append_header(out: &mut String, deploys: &Vec<Deploy>)
    ensures
        final(out)@ == old(out)@ + header_cells(deploys@) + "\n"@,
{
    let ghost start = out@;
    let mut i: usize = 0;
    proof {
        assert(deploys@.take(0) =~= Seq::<Deploy>::empty());
        assert(out@ =~= start + header_cells(deploys@.take(0)));
    }
    while i < deploys.len()
        invariant
            i <= deploys@.len(),
            out@ == start + header_cells(deploys@.take(i as int)),
        decreases deploys@.len() - i,
    {
        out.append("\t[");
        out.append(deploys[i].environment.as_str());
        out.append(" ");
        out.append(deploys[i].country.as_str());
        out.append("]");
        proof {
            assert(deploys@.take(i + 1).drop_last() =~= deploys@.take(i as int));
            assert(deploys@.take(i + 1).last() == deploys@[i as int]);
            assert(out@ =~= start + header_cells(deploys@.take(i + 1)));
        }
        i = i + 1;
    }
    out.append("\n");
    proof {
        assert(deploys@.take(deploys@.len() as int) =~= deploys@);
        assert(out@ =~= start + header_cells(deploys@) + "\n"@);
    }
}

/// Renders the whole column report: header, then one row per distinct
/// (schema, table, column name) in ascending order, cells in registry order,
/// deviations marked.
pub fn output_column_info(columns: &Vec<ColumnInfo>, deploys: &Vec<Deploy>) -> (out: String)
    ensures
        out@ == column_report(columns@, deploys@),
{
    let ghost ks = column_keys(columns@);
    let groups = group_columns(columns);
    let mut out = String::new();
    out.append("Schema\tTable\tColumn");
    append_header(&mut out, deploys);
    let ghost head = report_header("Schema\tTable\tColumn"@, deploys@);
    proof {
        assert(out@ =~= head);
        assert(column_rows(ks.take(0), columns@, deploys@) == Seq::<char>::empty());
        assert(out@ =~= head + column_rows(ks.take(0), columns@, deploys@));
    }
    let mut g: usize = 0;
    while g < groups.len()
        invariant
            g <= groups@.len(),
            ks == column_keys(columns@),
            col_group_keys(groups@) == ks,
            col_buckets_match(groups@, columns@),
            head == report_header("Schema\tTable\tColumn"@, deploys@),
            out@ == head + column_rows(ks.take(g as int), columns@, deploys@),
        decreases groups@.len() - g,
    {
        let ghost row_start = out@;
        let ghost bucket = groups@[g as int].1@;
        out.append(groups[g].0.schema.as_str());
        out.append("\t");
        out.append(groups[g].0.table.as_str());
        out.append("\t");
        out.append(groups[g].0.column_name.as_str());
        let most_used = find_most_used_column(&groups[g].1, deploys.len());
        let ghost cells_start = out@;
        proof {
            assert(cells_start =~= row_start + ks[g as int].0 + "\t"@ + ks[g as int].1 + "\t"@
                + ks[g as int].2);
            assert(deploys@.take(0) =~= Seq::<Deploy>::empty());
            assert(out@ =~= cells_start + column_cells(bucket, deploys@.take(0), most_used@));
        }
        let mut di: usize = 0;
        while di < deploys.len()
            invariant
                di <= deploys@.len(),
                g < groups@.len(),
                bucket == groups@[g as int].1@,
                most_used@ == most_used_column(bucket, deploys@.len() as int),
                out@ == cells_start + column_cells(bucket, deploys@.take(di as int), most_used@),
            decreases deploys@.len() - di,
        {
            match find_column_for_deploy(&groups[g].1, &deploys[di]) {
                Some(ix) => {
                    let fmt = column_format(&groups[g].1[ix]);
                    if str_eq(fmt.as_str(), most_used.as_str()) {
                        out.append("\t");
                    } else {
                        out.append("\t**");
                    }
                    out.append(fmt.as_str());
                },
                None => {
                    if most_used.as_str().is_empty() {
                        out.append("\t");
                    } else {
                        out.append("\t**");
                    }
                },
            }
            proof {
                assert(deploys@.take(di + 1).drop_last() =~= deploys@.take(di as int));
                assert(deploys@.take(di + 1).last() == deploys@[di as int]);
                assert(out@ =~= cells_start + column_cells(
                    bucket,
                    deploys@.take(di + 1),
                    most_used@,
                ));
            }
            di = di + 1;
        }
        out.append("\n");
        proof {
            assert(deploys@.take(deploys@.len() as int) =~= deploys@);
            assert(out@ =~= row_start + column_row(ks[g as int], bucket, deploys@));
            let p1 = |c: ColumnInfo| column_key(c) == crate::models::ucol_key(
                groups@[g as int].0,
            );
            let p2 = |c: ColumnInfo| column_key(c) == ks[g as int];
            assert(crate::models::ucol_key(groups@[g as int].0) == ks[g as int]);
            assert forall|c: ColumnInfo| #[trigger] p1(c) == p2(c) by {}
            assert(p1 =~= p2);
            assert(bucket == columns@.filter(p2));
            assert(ks.take(g + 1).drop_last() =~= ks.take(g as int));
            assert(ks.take(g + 1).last() == ks[g as int]);
            assert(out@ =~= head + column_rows(ks.take(g + 1), columns@, deploys@));
        }
        g = g + 1;
    }
    proof {
        assert(ks.take(ks.len() as int) =~= ks);
    }
    out
}

/// Renders the whole index report: header, then one row per distinct
/// (schema, table, index name) in ascending order, cells in registry order,
/// deviations marked.
pub fn output_index_info(indices: &Vec<IndexInfo>, deploys: &Vec<Deploy>) -> (out: String)
    ensures
        out@ == index_report(indices@, deploys@),
{
    let ghost ks = index_keys(indices@);
    let groups = group_indices(indices);
    let mut out = String::new();
    out.append("Schema\tTable\tIndex");
    append_header(&mut out, deploys);
    let ghost head = report_header("Schema\tTable\tIndex"@, deploys@);
    proof {
        assert(out@ =~= head);
        assert(index_rows(ks.take(0), indices@, deploys@) == Seq::<char>::empty());
        assert(out@ =~= head + index_rows(ks.take(0), indices@, deploys@));
    }
    let mut g: usize = 0;
    while g < groups.len()
        invariant
            g <= groups@.len(),
            ks == index_keys(indices@),
            idx_group_keys(groups@) == ks,
            idx_buckets_match(groups@, indices@),
            head == report_header("Schema\tTable\tIndex"@, deploys@),
            out@ == head + index_rows(ks.take(g as int), indices@, deploys@),
        decreases groups@.len() - g,
    {
        let ghost row_start = out@;
        let ghost bucket = groups@[g as int].1@;
        out.append(groups[g].0.schema.as_str());
        out.append("\t");
        out.append(groups[g].0.table.as_str());
        out.append("\t");
        out.append(groups[g].0.index_name.as_str());
        let most_used = find_most_used_index(deploys, &groups[g].1);
        let ghost cells_start = out@;
        proof {
            assert(cells_start =~= row_start + ks[g as int].0 + "\t"@ + ks[g as int].1 + "\t"@
                + ks[g as int].2);
            assert(deploys@.take(0) =~= Seq::<Deploy>::empty());
            assert(out@ =~= cells_start + index_cells(bucket, deploys@.take(0), most_used@));
        }
        let mut di: usize = 0;
        while di < deploys.len()
            invariant
                di <= deploys@.len(),
                g < groups@.len(),
                bucket == groups@[g as int].1@,
                most_used@ == most_used_index(bucket, deploys@),
                out@ == cells_start + index_cells(bucket, deploys@.take(di as int), most_used@),
            decreases deploys@.len() - di,
        {
            let facts = collect_deploy_facts(&groups[g].1, &deploys[di]);
            proof {
                lemma_sort_by_sequence_len(deploy_facts(bucket, deploys@[di as int]));
            }
            out.append("\t");
            if facts.len() > 0 {
                let fmt = index_format(&facts);
                if !str_eq(fmt.as_str(), most_used.as_str()) {
                    out.append("**");
                }
                out.append(fmt.as_str());
            } else {
                if !most_used.as_str().is_empty() {
                    out.append("**");
                }
            }
            proof {
                assert(deploys@.take(di + 1).drop_last() =~= deploys@.take(di as int));
                assert(deploys@.take(di + 1).last() == deploys@[di as int]);
                assert(out@ =~= cells_start + index_cells(
                    bucket,
                    deploys@.take(di + 1),
                    most_used@,
                ));
            }
            di = di + 1;
        }
        out.append("\n");
        proof {
            assert(deploys@.take(deploys@.len() as int) =~= deploys@);
            assert(out@ =~= row_start + index_row(ks[g as int], bucket, deploys@));
            let p1 = |c: IndexInfo| index_key(c) == crate::models::uidx_key(
                groups@[g as int].0,
            );
            let p2 = |c: IndexInfo| index_key(c) == ks[g as int];
            assert(crate::models::uidx_key(groups@[g as int].0) == ks[g as int]);
            assert forall|c: IndexInfo| #[trigger] p1(c) == p2(c) by {}
            assert(p1 =~= p2);
            assert(bucket == indices@.filter(p2));
            assert(ks.take(g + 1).drop_last() =~= ks.take(g as int));
            assert(ks.take(g + 1).last() == ks[g as int]);
            assert(out@ =~= head + index_rows(ks.take(g + 1), indices@, deploys@));
        }
        g = g + 1;
    }
    proof {
        assert(ks.take(ks.len() as int) =~= ks);
    }
    out
}

} // verus!
