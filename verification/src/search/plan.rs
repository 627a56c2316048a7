//! The statements a search runs. Filters narrow the candidates on indexed
//! columns first; then, when the query has words, FTS5 ranks what is left
//! with `bm25` and cuts snippets. The host runs the statements and reads the
//! rows.
use vstd::prelude::*;
use crate::search::query::{filter_sql, filter_sql_of, filters_view, fts_expression, like_escaped, sql_param_view, sql_params_view, terms_view, FilterView, Query, SqlParam, SqlParamView, contains_pattern, escape_like};
use crate::search::engine::SearchOptions;
use crate::strings::{join_strings, joined, texts_view, clone_string, lowercase, push_str, str_to_string, strip_leading, strip_leading_char, to_chars, to_lowercase, string_of};
use crate::vault::path::{file_name_of, stem_of, VaultPath};

verus! {

/// One SQL statement and its parameters, in binding order.
#[derive(Debug)]
pub struct Statement {
    pub sql: String,
    pub params: Vec<SqlParam>,
}

/// A search: the statement counting every match, and the one fetching the
/// page asked for. `ranked` when the page comes with snippets and ranks.
#[derive(Debug)]
pub struct SearchPlan {
    pub count: Statement,
    pub page: Statement,
    pub ranked: bool,
}

/// The filters' conditions and, in the same order, their parameters.
pub open spec fn filters_sql(fs: Seq<FilterView>) -> (Seq<Seq<char>>, Seq<SqlParamView>)
    decreases fs.len(),
{
    if fs.len() == 0 {
        (Seq::<Seq<char>>::empty(), Seq::<SqlParamView>::empty())
    } else {
        let prev = filters_sql(fs.drop_last());
        let this = filter_sql_of(fs.last());
        (prev.0.push(this.0), prev.1 + this.1)
    }
}

pub open spec fn count_head() -> Seq<char> {
    "SELECT count(*) FROM files f WHERE "@
}

/// The text match as a condition on `files f`, for counting: the count has
/// no FTS table to join.
pub open spec fn fts_condition() -> Seq<char> {
    "f.id IN (SELECT rowid FROM notes_fts WHERE notes_fts MATCH ?)"@
}

/// The text match for the page, which joins the FTS table so `snippet()`
/// and `bm25()` have one to work on; FTS5 takes their first argument as a
/// table name, so the join is not aliased.
pub open spec fn fts_join_condition() -> Seq<char> {
    "notes_fts MATCH ?"@
}

pub open spec fn ranked_head() -> Seq<char> {
    "SELECT f.path, f.title, f.kind, f.mtime_ms, snippet(notes_fts, 2, ?, ?, '…', ?) AS snip, bm25(notes_fts, 2, 8, 1) AS rank FROM files f JOIN notes_fts ON notes_fts.rowid = f.id WHERE "@
}

pub open spec fn ranked_tail() -> Seq<char> {
    " ORDER BY rank LIMIT ? OFFSET ?"@
}

pub open spec fn recent_head() -> Seq<char> {
    "SELECT f.path, f.title, f.kind, f.mtime_ms FROM files f WHERE "@
}

pub open spec fn recent_tail() -> Seq<char> {
    " ORDER BY f.mtime_ms DESC LIMIT ? OFFSET ?"@
}

pub open spec fn and_all(cs: Seq<Seq<char>>) -> Seq<char> {
    joined(cs, " AND "@)
}

/// A filter-only search's condition: every filter, or all files.
pub open spec fn where_all(cs: Seq<Seq<char>>) -> Seq<char> {
    if cs.len() == 0 {
        "1 = 1"@
    } else {
        and_all(cs)
    }
}

pub open spec fn statement_is(st: Statement, sql: Seq<char>, params: Seq<SqlParamView>) -> bool {
    st.sql@ == sql && sql_params_view(st.params@) == params
}

/// What a query runs (see `plan_search`). Parameters bind in the order
/// their `?` stand in the text: for the ranked page, the three snippet
/// arguments, then the filters', then the text match, then the paging.
pub open spec fn search_plan_is(p: SearchPlan, q: Query, o: SearchOptions) -> bool {
    let fs = filters_sql(filters_view(q.filters@));
    let limit = SqlParamView::Integer(o.limit as i64);
    let offset = SqlParamView::Integer(o.offset as i64);
    match fts_expression(terms_view(q.terms@)) {
        Some(e) => {
            &&& p.ranked
            &&& statement_is(
                p.count,
                count_head() + and_all(seq![fts_condition()] + fs.0),
                seq![SqlParamView::Text(e)] + fs.1,
            )
            &&& statement_is(
                p.page,
                ranked_head() + and_all(fs.0.push(fts_join_condition())) + ranked_tail(),
                seq![
                    SqlParamView::Text(o.highlight_open@),
                    SqlParamView::Text(o.highlight_close@),
                    SqlParamView::Integer(o.snippet_tokens as i64),
                ] + fs.1 + seq![SqlParamView::Text(e), limit, offset],
            )
        },
        None => {
            &&& !p.ranked
            &&& statement_is(p.count, count_head() + where_all(fs.0), fs.1)
            &&& statement_is(p.page, recent_head() + where_all(fs.0) + recent_tail(), fs.1 + seq![limit, offset])
        },
    }
}

fn copy_param(p: &SqlParam) -> (r: SqlParam)
    ensures
        sql_param_view(r) == sql_param_view(*p),
{
    match p {
        SqlParam::Text(t) => SqlParam::Text(clone_string(t)),
        SqlParam::Number(t) => SqlParam::Number(clone_string(t)),
        SqlParam::Integer(n) => SqlParam::Integer(*n),
    }
}

/// Append copies of `ps` to `out`.
fn extend_params(out: &mut Vec<SqlParam>, ps: &Vec<SqlParam>)
    ensures
        sql_params_view(final(out)@) == sql_params_view(old(out)@) + sql_params_view(ps@),
{
    let ghost start = sql_params_view(out@);
    let mut i: usize = 0;
    while i < ps.len()
        invariant
            i <= ps@.len(),
            sql_params_view(out@) == start + sql_params_view(ps@.take(i as int)),
        decreases ps@.len() - i,
    {
        let ghost before = sql_params_view(out@);
        out.push(copy_param(&ps[i]));
        assert(sql_params_view(out@) =~= before.push(sql_param_view(ps@[i as int])));
        assert(sql_params_view(ps@.take(i + 1)) =~= sql_params_view(ps@.take(i as int)).push(
            sql_param_view(ps@[i as int]),
        ));
        i = i + 1;
    }
    assert(ps@.take(ps@.len() as int) =~= ps@);
}

fn text(t: &str) -> (r: SqlParam)
    ensures
        sql_param_view(r) == SqlParamView::Text(t@),
{
    SqlParam::Text(str_to_string(t))
}

fn integer(n: usize) -> (r: SqlParam)
    ensures
        sql_param_view(r) == SqlParamView::Integer(n as i64),
{
    SqlParam::Integer(n as i64)
}

/// The statements for a query, or `None` for an empty query, which asks
/// for nothing.
pub fn plan_search(query: &Query, options: &SearchOptions) -> (r: Option<SearchPlan>)
    ensures
        match r {
            None => query.terms@.len() == 0 && query.filters@.len() == 0,
            Some(p) => !(query.terms@.len() == 0 && query.filters@.len() == 0) && search_plan_is(p, *query, *options),
        },
{
    if query.is_empty() {
        return None;
    }
    let ghost fv = filters_view(query.filters@);
    let mut conditions: Vec<String> = Vec::new();
    let mut params: Vec<SqlParam> = Vec::new();
    let mut i: usize = 0;
    assert(fv.take(0) =~= Seq::<FilterView>::empty());
    assert(texts_view(conditions@) =~= Seq::<Seq<char>>::empty());
    assert(sql_params_view(params@) =~= Seq::<SqlParamView>::empty());
    while i < query.filters.len()
        invariant
            fv == filters_view(query.filters@),
            i <= query.filters@.len(),
            (texts_view(conditions@), sql_params_view(params@)) == filters_sql(fv.take(i as int)),
        decreases query.filters@.len() - i,
    {
        assert(fv.take(i + 1).drop_last() =~= fv.take(i as int));
        assert(fv.take(i + 1).last() == fv[i as int]);
        let (sql, ps) = filter_sql(&query.filters[i]);
        let ghost before = texts_view(conditions@);
        conditions.push(sql);
        assert(texts_view(conditions@) =~= before.push(filter_sql_of(fv[i as int]).0));
        extend_params(&mut params, &ps);
        i = i + 1;
    }
    assert(fv.take(i as int) =~= fv);
    let ghost fs = filters_sql(fv);
    match query.to_fts_expression() {
        Some(e) => {
            let mut count_conditions: Vec<String> = Vec::new();
            count_conditions.push(str_to_string("f.id IN (SELECT rowid FROM notes_fts WHERE notes_fts MATCH ?)"));
            let mut k: usize = 0;
            while k < conditions.len()
                invariant
                    k <= conditions@.len(),
                    texts_view(count_conditions@) == seq![fts_condition()] + texts_view(conditions@).take(k as int),
                decreases conditions@.len() - k,
            {
                let ghost before = texts_view(count_conditions@);
                count_conditions.push(clone_string(&conditions[k]));
                assert(texts_view(count_conditions@) =~= before.push(conditions@[k as int]@));
                assert(texts_view(conditions@).take(k + 1) =~= texts_view(conditions@).take(k as int).push(
                    conditions@[k as int]@,
                ));
                k = k + 1;
            }
            assert(texts_view(conditions@).take(k as int) =~= texts_view(conditions@));
            let mut count_sql = str_to_string("SELECT count(*) FROM files f WHERE ");
            push_str(&mut count_sql, join_strings(&count_conditions, " AND ").as_str());
            let mut count_params: Vec<SqlParam> = Vec::new();
            count_params.push(text(e.as_str()));
            extend_params(&mut count_params, &params);
            assert(sql_params_view(count_params@) =~= seq![SqlParamView::Text(e@)] + fs.1);

            let ghost cv = texts_view(conditions@);
            conditions.push(str_to_string("notes_fts MATCH ?"));
            assert(texts_view(conditions@) =~= cv.push(fts_join_condition()));
            let mut page_sql = str_to_string(
                "SELECT f.path, f.title, f.kind, f.mtime_ms, snippet(notes_fts, 2, ?, ?, '…', ?) AS snip, bm25(notes_fts, 2, 8, 1) AS rank FROM files f JOIN notes_fts ON notes_fts.rowid = f.id WHERE ",
            );
            push_str(&mut page_sql, join_strings(&conditions, " AND ").as_str());
            push_str(&mut page_sql, " ORDER BY rank LIMIT ? OFFSET ?");
            let mut page_params: Vec<SqlParam> = Vec::new();
            page_params.push(SqlParam::Text(clone_string(&options.highlight_open)));
            page_params.push(SqlParam::Text(clone_string(&options.highlight_close)));
            page_params.push(integer(options.snippet_tokens));
            let ghost head = sql_params_view(page_params@);
            extend_params(&mut page_params, &params);
            let ghost mid = sql_params_view(page_params@);
            page_params.push(text(e.as_str()));
            page_params.push(integer(options.limit));
            page_params.push(integer(options.offset));
            assert(sql_params_view(page_params@) =~= mid + seq![
                SqlParamView::Text(e@),
                SqlParamView::Integer(options.limit as i64),
                SqlParamView::Integer(options.offset as i64),
            ]);
            assert(head =~= seq![
                SqlParamView::Text(options.highlight_open@),
                SqlParamView::Text(options.highlight_close@),
                SqlParamView::Integer(options.snippet_tokens as i64),
            ]);
            Some(SearchPlan {
                count: Statement { sql: count_sql, params: count_params },
                page: Statement { sql: page_sql, params: page_params },
                ranked: true,
            })
        },
        None => {
            let where_clause = if conditions.len() == 0 {
                str_to_string("1 = 1")
            } else {
                join_strings(&conditions, " AND ")
            };
            let mut count_sql = str_to_string("SELECT count(*) FROM files f WHERE ");
            push_str(&mut count_sql, where_clause.as_str());
            let mut count_params: Vec<SqlParam> = Vec::new();
            extend_params(&mut count_params, &params);
            assert(sql_params_view(count_params@) =~= fs.1);
            let mut page_sql = str_to_string("SELECT f.path, f.title, f.kind, f.mtime_ms FROM files f WHERE ");
            push_str(&mut page_sql, where_clause.as_str());
            push_str(&mut page_sql, " ORDER BY f.mtime_ms DESC LIMIT ? OFFSET ?");
            let mut page_params: Vec<SqlParam> = Vec::new();
            extend_params(&mut page_params, &params);
            let ghost mid = sql_params_view(page_params@);
            page_params.push(integer(options.limit));
            page_params.push(integer(options.offset));
            assert(sql_params_view(page_params@) =~= mid + seq![
                SqlParamView::Integer(options.limit as i64),
                SqlParamView::Integer(options.offset as i64),
            ]);
            Some(SearchPlan {
                count: Statement { sql: count_sql, params: count_params },
                page: Statement { sql: page_sql, params: page_params },
                ranked: false,
            })
        },
    }
}

/// Are there matches past the page? The total counts every match; the page
/// started at `offset` and showed `shown`.
pub fn page_truncated(total: i64, offset: usize, shown: usize) -> (r: bool)
    ensures
        r == ((total as usize) > offset + shown),
{
    let t = total as usize;
    t > offset && t - offset > shown
}

/// A hit's title: the one the index holds, or else the file's stem.
pub fn hit_title(path: &VaultPath, title: Option<String>) -> (r: String)
    ensures
        r@ == match title {
            Some(t) => t@,
            None => stem_of(file_name_of(path@)),
        },
{
    match title {
        Some(t) => t,
        None => str_to_string(path.stem()),
    }
}

/// The LIKE pattern completing a tag: what was typed, without leading `#`,
/// lowercased, anywhere in the tag.
pub fn tag_completion_pattern(needle: &str) -> (r: String)
    ensures
        r@ == "%"@ + like_escaped(lowercase(strip_leading(needle@, '#'))) + "%"@,
{
    let v = to_chars(needle);
    let a = strip_leading_char(&v, 0, v.len(), '#');
    assert(v@.subrange(0, v@.len() as int) =~= needle@);
    let rest = string_of(&v, a, v.len());
    contains_pattern(&rest)
}

/// The keys that find the files carrying a tag: the tag without its
/// leading `#`, lowercased, and the LIKE pattern of the tags nested under it.
pub fn tag_lookup(tag: &str) -> (r: (String, String))
    ensures
        r.0@ == lowercase(strip_leading(tag@, '#')),
        r.1@ == like_escaped(lowercase(strip_leading(tag@, '#'))) + "/%"@,
{
    let v = to_chars(tag);
    let a = strip_leading_char(&v, 0, v.len(), '#');
    assert(v@.subrange(0, v@.len() as int) =~= tag@);
    let rest = string_of(&v, a, v.len());
    let fold = to_lowercase(rest.as_str());
    let mut like = escape_like(&fold);
    like.append("/%");
    (fold, like)
}

/// The LIKE pattern completing a heading: what was typed, lowercased,
/// anywhere in the heading.
pub fn heading_completion_pattern(needle: &str) -> (r: String)
    ensures
        r@ == "%"@ + like_escaped(lowercase(needle@)) + "%"@,
{
    contains_pattern(&str_to_string(needle))
}

} // verus!
