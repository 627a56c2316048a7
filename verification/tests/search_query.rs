use ie_core::search::query::{filter_sql, parse, Comparison, Filter, Query, SqlParam, StructuralPredicate, Term};

fn q(input: &str) -> Query {
    parse(input).unwrap()
}

#[test]
fn bare_words_become_terms() {
    assert_eq!(
        q("machine learning").terms,
        vec![Term::Word("machine".into()), Term::Word("learning".into())]
    );
}

#[test]
fn a_quoted_string_is_one_phrase() {
    assert_eq!(q("\"machine learning\"").terms, vec![Term::Phrase("machine learning".into())]);
}

#[test]
fn a_leading_dash_negates_a_term() {
    assert_eq!(q("-draft").terms, vec![Term::Not(Box::new(Term::Word("draft".into())))]);
}

#[test]
fn a_dash_inside_a_word_is_part_of_the_word() {
    assert_eq!(q("well-known").terms, vec![Term::Word("well-known".into())]);
}

#[test]
fn tag_filters_strip_a_leading_hash() {
    assert_eq!(q("tag:AI").filters, vec![Filter::Tag("AI".into())]);
    assert_eq!(q("tag:#AI").filters, vec![Filter::Tag("AI".into())]);
    assert_eq!(q("tag:AI/LLM").filters, vec![Filter::Tag("AI/LLM".into())]);
}

#[test]
fn path_file_and_extension_filters_parse() {
    assert_eq!(q("path:Projects").filters, vec![Filter::Path("Projects".into())]);
    assert_eq!(q("file:readme").filters, vec![Filter::File("readme".into())]);
    assert_eq!(q("ext:.png").filters, vec![Filter::Extension("png".into())]);
}

#[test]
fn an_unrecognised_prefix_is_treated_as_a_property() {
    assert_eq!(
        q("status:active").filters,
        vec![Filter::Property {
            key: "status".into(),
            comparison: Comparison::Equal,
            value: "active".into()
        }]
    );
}

#[test]
fn numeric_comparisons_parse() {
    assert_eq!(
        q("rating>7").filters,
        vec![Filter::Property {
            key: "rating".into(),
            comparison: Comparison::Greater,
            value: "7".into()
        }]
    );
    assert_eq!(
        q("rating<=3").filters,
        vec![Filter::Property {
            key: "rating".into(),
            comparison: Comparison::LessOrEqual,
            value: "3".into()
        }]
    );
}

#[test]
fn a_quoted_value_keeps_its_prefix() {
    assert_eq!(q("section:\"Design notes\"").filters, vec![Filter::Section("Design notes".into())]);
}

#[test]
fn structural_filters_parse_and_reject_typos() {
    assert_eq!(q("is:orphan").filters, vec![Filter::Is(StructuralPredicate::Orphan)]);
    let error = parse("is:nonsense").unwrap_err();
    assert_eq!(error.code(), "invalid_query");
    assert!(error.to_string().contains("unresolved"));
}

#[test]
fn a_negated_filter_is_wrapped() {
    assert_eq!(q("-tag:draft").filters, vec![Filter::Not(Box::new(Filter::Tag("draft".into())))]);
}

#[test]
fn terms_and_filters_mix_freely() {
    let query = q("neural tag:AI path:Research \"exact phrase\" -old");
    assert_eq!(query.terms.len(), 3);
    assert_eq!(query.filters.len(), 2);
}

#[test]
fn an_unterminated_quote_is_an_error_with_an_explanation() {
    let error = parse("\"never closed").unwrap_err();
    assert_eq!(error.code(), "invalid_query");
    assert!(error.to_string().contains("never closed"));
}

#[test]
fn a_prefix_with_no_value_is_an_error() {
    assert!(parse("tag:").is_err());
}

#[test]
fn an_empty_query_is_empty_rather_than_an_error() {
    let query = q("   ");
    assert!(query.is_empty());
}

#[test]
fn fts_expressions_quote_everything_so_operators_are_literal() {
    assert_eq!(
        q("AND OR NOT").to_fts_expression().as_deref(),
        Some("\"AND\" AND \"OR\" AND \"NOT\"")
    );
    assert_eq!(q("say \"hi\"").to_fts_expression().as_deref(), Some("\"say\" AND \"hi\""));
}

#[test]
fn a_wildcard_character_is_searched_literally() {
    assert_eq!(q("a*").to_fts_expression().as_deref(), Some("\"a*\""));
}

#[test]
fn a_filter_only_query_has_no_fts_expression() {
    assert_eq!(q("tag:AI").to_fts_expression(), None);
    assert!(!q("tag:AI").is_text_only());
    assert!(q("word").is_text_only());
}

#[test]
fn negation_becomes_an_fts_not_operator() {
    assert_eq!(
        q("neural -draft").to_fts_expression().as_deref(),
        Some("\"neural\" NOT \"draft\"")
    );
}

#[test]
fn like_wildcards_in_user_input_are_escaped() {
    let (_, params) = filter_sql(&Filter::Path("100%_done".into()));
    match &params[0] {
        SqlParam::Text(text) => {
            assert!(text.contains("\\%"), "{text}");
            assert!(text.contains("\\_"), "{text}");
        }
        other => panic!("expected text, got {other:?}"),
    }
}

#[test]
fn a_numeric_property_value_produces_a_numeric_comparison() {
    let (sql, params) = filter_sql(&Filter::Property {
        key: "rating".into(),
        comparison: Comparison::Greater,
        value: "7".into(),
    });
    assert!(sql.contains("num_value >"), "{sql}");
    assert!(matches!(params[1], SqlParam::Number(_)));
}

#[test]
fn a_textual_property_value_produces_a_text_comparison() {
    let (sql, _) = filter_sql(&Filter::Property {
        key: "status".into(),
        comparison: Comparison::Equal,
        value: "active".into(),
    });
    assert!(sql.contains("text_fold ="), "{sql}");
}

#[test]
fn a_leading_negation_subtracts_from_every_document() {
    assert_eq!(
        q("-draft").to_fts_expression().as_deref(),
        Some("(path : \"md\" OR path : \"canvas\" OR body : \"\") NOT \"draft\"")
    );
}

#[test]
fn quotes_inside_a_term_are_doubled() {
    assert_eq!(q("say\"\"x").to_fts_expression().as_deref(), Some("\"sayx\""));
    let query = Query { terms: vec![Term::Word("a\"b".into())], filters: vec![] };
    assert_eq!(query.to_fts_expression().as_deref(), Some("\"a\"\"b\""));
}

#[test]
fn a_double_negation_contributes_nothing() {
    let query = Query {
        terms: vec![Term::Not(Box::new(Term::Not(Box::new(Term::Word("x".into())))))],
        filters: vec![],
    };
    assert_eq!(query.to_fts_expression(), None);
    assert!(Query::default().is_empty());
}

#[test]
fn a_needs_a_value_error_names_the_key() {
    let error = parse("status:   ").unwrap_err();
    assert_eq!(error.code(), "invalid_query");
    assert_eq!(error.to_string(), "the search query could not be parsed: status: needs a value");
}

#[test]
fn float_syntax_decides_numeric_comparison() {
    for (value, numeric) in [
        ("7", true),
        ("-3.5", true),
        ("1e5", true),
        ("2.5E-3", true),
        (".5", true),
        ("5.", true),
        ("inf", true),
        ("NaN", true),
        ("+Infinity", true),
        ("1e", false),
        (".", false),
        ("1.2.3", false),
        ("seven", false),
        ("", false),
        ("1_000", false),
    ] {
        let (sql, params) = filter_sql(&Filter::Property {
            key: "Rating".into(),
            comparison: Comparison::GreaterOrEqual,
            value: value.into(),
        });
        assert_eq!(sql.contains("num_value >="), numeric, "{value}");
        assert_eq!(params[0], SqlParam::Text("rating".into()));
        assert_eq!(matches!(params[1], SqlParam::Number(_)), numeric, "{value}");
        if numeric {
            assert!(value.parse::<f64>().is_ok(), "{value}");
        } else {
            assert!(value.parse::<f64>().is_err(), "{value}");
        }
    }
}

#[test]
fn filter_sql_covers_every_filter() {
    let (sql, params) = filter_sql(&Filter::Tag("AI_x".into()));
    assert_eq!(sql, "EXISTS (SELECT 1 FROM tags t WHERE t.file_id = f.id AND (t.tag_fold = ? OR t.tag_fold LIKE ? ESCAPE '\\'))");
    assert_eq!(params, vec![SqlParam::Text("ai_x".into()), SqlParam::Text("ai\\_x/%".into())]);
    let (sql, params) = filter_sql(&Filter::Not(Box::new(Filter::Extension("PNG".into()))));
    assert_eq!(sql, "NOT (f.ext = ?)");
    assert_eq!(params, vec![SqlParam::Text("png".into())]);
    let (sql, params) = filter_sql(&Filter::Is(StructuralPredicate::Untagged));
    assert_eq!(sql, "NOT EXISTS (SELECT 1 FROM tags t WHERE t.file_id = f.id)");
    assert!(params.is_empty());
    let (_, params) = filter_sql(&Filter::Section("Design".into()));
    assert_eq!(params, vec![SqlParam::Text("%design%".into())]);
}

#[test]
fn a_quoted_token_without_a_prefix_is_a_phrase() {
    let query = q("\"a:b\" -\"tag:x\"");
    assert_eq!(
        query.terms,
        vec![Term::Phrase("a:b".into()), Term::Not(Box::new(Term::Phrase("tag:x".into())))]
    );
    assert!(query.filters.is_empty());
}
