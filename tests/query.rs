use ereader::archive::SearchDocument;
use ereader::query::{
    build_query, compile_query, document_matches, tokenize, Clause, CmpOp, CountField, CountRange,
    Directive, Order, QueryError, QueryErrorKind, QueryFilterSet, Rating, Status, TagMode, Term, WilsonRange,
};

fn compile(q: &str) -> QueryFilterSet {
    compile_query(q).expect("query compiles")
}

fn doc_with_tags(tags: &[&str]) -> SearchDocument {
    SearchDocument {
        title: "T".to_string(),
        description: String::new(),
        author: "Bob".to_string(),
        path: "a.epub".to_string(),
        likes: 10,
        dislikes: 0,
        words: 1000,
        wilson: 0,
        status: "complete".to_string(),
        rating: "everyone".to_string(),
        tags: tags.iter().map(|t| t.to_string()).collect(),
    }
}

#[test]
fn words_ge_and_le_intersect() {
    let f = compile("words>=1000 words<=5000");
    assert_eq!(f.words, Some(CountRange { lower: 1000, upper: 5001 }));
    assert_eq!(f.likes, None);
    assert_eq!(f.text, "");
}

#[test]
fn words_two_strict_lower_bounds_keep_the_larger() {
    let f = compile("words>500 words>1000");
    assert_eq!(f.words.unwrap().lower, 1001);
    assert_eq!(f.words.unwrap().upper, 9223372036854775807);
}

#[test]
fn words_two_strict_upper_bounds_keep_the_smaller() {
    let f = compile("words<300 words<100");
    assert_eq!(f.words, Some(CountRange { lower: 0, upper: 100 }));
}

#[test]
fn wilson_tie_keeps_exclusive_lower_bound() {
    let f = compile("wilson>0.5 wilson>=0.5");
    assert_eq!(
        f.wilson,
        Some(WilsonRange {
            lower: 500_000_000_000_000_000,
            lower_inclusive: false,
            upper: 1_000_000_000_000_000_000,
            upper_inclusive: false,
        })
    );
}

#[test]
fn wilson_strict_after_inclusive_on_equal_value_becomes_exclusive() {
    let f = compile("wilson>=0.25 wilson>0.25 wilson<=0.75");
    assert_eq!(
        f.wilson,
        Some(WilsonRange {
            lower: 250_000_000_000_000_000,
            lower_inclusive: false,
            upper: 750_000_000_000_000_000,
            upper_inclusive: true,
        })
    );
}

#[test]
fn tag_composition_matches_as_described() {
    let f = compile("#(Adventure) -#(Sad) ~#(Comedy) ~#(SliceOfLife)");
    assert_eq!(f.required_tags, vec!["Adventure".to_string()]);
    assert_eq!(f.excluded_tags, vec!["Sad".to_string()]);
    assert_eq!(f.any_tags, vec!["Comedy".to_string(), "SliceOfLife".to_string()]);
    let q = build_query(&f);
    assert_eq!(q.len(), 1);
    let none: Vec<String> = Vec::new();
    assert!(document_matches(&q, &doc_with_tags(&["Adventure", "Comedy"]), &none));
    assert!(document_matches(&q, &doc_with_tags(&["SliceOfLife", "Adventure", "Romance"]), &none));
    assert!(!document_matches(&q, &doc_with_tags(&["Adventure", "Comedy", "Sad"]), &none));
    assert!(!document_matches(&q, &doc_with_tags(&["Adventure"]), &none));
    assert!(!document_matches(&q, &doc_with_tags(&["Comedy", "SliceOfLife"]), &none));
}

#[test]
fn excluded_tags_alone_match_nothing() {
    let q = build_query(&compile("-#(Sad)"));
    let none: Vec<String> = Vec::new();
    assert!(!document_matches(&q, &doc_with_tags(&["Adventure"]), &none));
    assert!(!document_matches(&q, &doc_with_tags(&[]), &none));
}

#[test]
fn empty_query_matches_nothing() {
    let q = build_query(&compile("   "));
    assert!(q.is_empty());
    assert!(!document_matches(&q, &doc_with_tags(&["Adventure"]), &Vec::new()));
}

#[test]
fn escaped_paren_in_author_name() {
    let f = compile(r"author(Smith \) Jones)");
    assert_eq!(f.authors, vec!["Smith ) Jones".to_string()]);
    assert_eq!(f.text, "");
    let q = build_query(&f);
    assert_eq!(q.len(), 1);
    match &q[0] {
        Clause::Term(Term::Author(name)) => assert_eq!(name, "Smith ) Jones"),
        other => panic!("unexpected clause {:?}", other),
    }
}

#[test]
fn two_authors_form_one_alternative_clause() {
    let q = build_query(&compile("author(Ann) author(Bob)"));
    assert_eq!(q.len(), 1);
    match &q[0] {
        Clause::AnyOf(terms) => assert_eq!(terms.len(), 2),
        other => panic!("unexpected clause {:?}", other),
    }
    let mut d = doc_with_tags(&[]);
    assert!(document_matches(&q, &d, &Vec::new()));
    d.author = "Cid".to_string();
    assert!(!document_matches(&q, &d, &Vec::new()));
}

#[test]
fn imported_record_is_found_by_tag_and_wilson_order() {
    let rec = ereader::archive::ArchiveRecord {
        id: 1,
        path: "a.epub".to_string(),
        author: "Bob".to_string(),
        title: Some("Test".to_string()),
        description: Some("<p>x</p>".to_string()),
        status: "complete".to_string(),
        rating: "everyone".to_string(),
        likes: 10,
        dislikes: 0,
        words: 1000,
        tags: vec!["Adventure".to_string()],
    };
    let d = ereader::archive::document_from_record(rec, 691_500_000_000_000_000);
    assert_eq!(d.wilson, 691_500_000_000_000_000);
    assert_eq!(d.title, "Test");
    let f = compile("#(Adventure) order:wilson");
    assert_eq!(f.order, Order::Wilson);
    let q = build_query(&f);
    assert!(document_matches(&q, &d, &Vec::new()));
    let g = compile("#(Adventure) wilson>0.7");
    assert!(!document_matches(&build_query(&g), &d, &Vec::new()));
}

fn error_of(q: &str) -> QueryError {
    compile_query(q).expect_err("query is refused")
}

#[test]
fn count_too_large_is_an_error() {
    assert_eq!(
        error_of("words>99999999999999999999"),
        QueryError { kind: QueryErrorKind::CountTooLarge, at: 0 }
    );
    assert!(compile_query("likes<9223372036854775807").is_ok());
    assert_eq!(
        error_of("x likes<9223372036854775808"),
        QueryError { kind: QueryErrorKind::CountTooLarge, at: 2 }
    );
}

#[test]
fn malformed_literals_are_errors_with_their_position() {
    assert_eq!(
        error_of("wilson>0x5"),
        QueryError { kind: QueryErrorKind::MalformedDecimal, at: 0 }
    );
    assert_eq!(
        error_of("dragons words>many"),
        QueryError { kind: QueryErrorKind::MalformedNumber, at: 8 }
    );
    assert_eq!(error_of("likes<=").kind, QueryErrorKind::MalformedNumber);
    assert_eq!(error_of("wilson>=2.5").kind, QueryErrorKind::MalformedDecimal);
    assert_eq!(
        error_of("#(A) wilson<1.5"),
        QueryError { kind: QueryErrorKind::WilsonOutOfRange, at: 5 }
    );
    assert!(compile_query("wilson<=1.0").is_ok());
    assert!(compile_query("words and wilson alone").is_ok());
}

#[test]
fn wilson_with_too_many_digits_is_an_error() {
    assert_eq!(
        error_of("wilson>0.1234567890123456789").kind,
        QueryErrorKind::WilsonTooPrecise
    );
    let f = compile("wilson>0.123456789012345678");
    assert_eq!(f.wilson.unwrap().lower, 123_456_789_012_345_678);
}

#[test]
fn free_text_is_what_remains_trimmed() {
    let f = compile("  dragons author(Bob) and  ponies #(Adventure)  ");
    assert_eq!(f.text, "dragons  and  ponies");
    let q = build_query(&f);
    assert_eq!(q.len(), 3);
    match &q[2] {
        Clause::Text(t) => assert_eq!(t, "dragons  and  ponies"),
        other => panic!("unexpected clause {:?}", other),
    }
    let d = doc_with_tags(&["Adventure"]);
    assert!(!document_matches(&q, &d, &Vec::new()));
    assert!(document_matches(&q, &d, &vec!["dragons  and  ponies".to_string()]));
}

#[test]
fn last_order_wins_and_default_is_relevancy() {
    assert_eq!(compile("order:likes x order:words").order, Order::Words);
    assert_eq!(compile("plain words").order, Order::Relevancy);
    assert_eq!(compile("order:dislikes").order, Order::Dislikes);
}

#[test]
fn rating_and_status_facets_each_add_a_clause() {
    let f = compile("rating:teen status:complete status:hiatus");
    assert_eq!(f.ratings, vec![Rating::Teen]);
    assert_eq!(f.statuses, vec![Status::Complete, Status::Hiatus]);
    let q = build_query(&f);
    assert_eq!(q.len(), 3);
    let mut d = doc_with_tags(&[]);
    d.rating = "teen".to_string();
    d.status = "complete".to_string();
    assert!(!document_matches(&q, &d, &Vec::new()));
    let single = build_query(&compile("rating:teen status:complete"));
    assert!(document_matches(&single, &d, &Vec::new()));
}

#[test]
fn dislikes_is_not_read_as_likes() {
    let f = compile("dislikes<5");
    assert_eq!(f.dislikes, Some(CountRange { lower: 0, upper: 5 }));
    assert_eq!(f.likes, None);
    assert_eq!(f.text, "");
}

#[test]
fn count_range_clause_filters_documents() {
    let q = build_query(&compile("words>=1000 words<=5000"));
    let mut d = doc_with_tags(&[]);
    d.words = 5000;
    assert!(document_matches(&q, &d, &Vec::new()));
    d.words = 5001;
    assert!(!document_matches(&q, &d, &Vec::new()));
    d.words = 999;
    assert!(!document_matches(&q, &d, &Vec::new()));
}

#[test]
fn incomplete_directives_stay_text() {
    let f = compile("author() #(open rating:adult order:size");
    assert!(f.authors.is_empty());
    assert!(f.required_tags.is_empty());
    assert!(f.ratings.is_empty());
    assert_eq!(f.order, Order::Relevancy);
    assert_eq!(f.text, "author() #(open rating:adult order:size");
}

#[test]
fn tokenize_gives_directives_in_order() {
    let (ds, rest) = tokenize("a~#(x\\)y)b likes>=7 order:wilson").unwrap();
    assert_eq!(rest, "ab  ");
    assert_eq!(ds.len(), 3);
    assert!(matches!(&ds[0], Directive::Tag(TagMode::AnyOf, n) if n == "x)y"));
    assert!(matches!(&ds[1], Directive::Count(CountField::Likes, CmpOp::Ge, 7)));
    assert!(matches!(&ds[2], Directive::Order(Order::Wilson)));
}
