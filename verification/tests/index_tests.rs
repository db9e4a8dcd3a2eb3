use std::rc::Rc;

use ferrocene::index::document_writer::PostingsTable;
use ferrocene::index::field_info::FieldInfos;
use ferrocene::index::segment_infos::{
    file_name_from_generation, get_generation_from_file_name, get_last_commit_generation,
    last_segments_file_name,
};
use ferrocene::index::{IndexError, Posting, Term};

#[test]
fn test_postings_table() {
    let mut postings_table = PostingsTable::new();

    let term1 = Rc::new(Term::new("title".to_owned(), "Tests".to_owned()));
    let term2 = Rc::new(Term::new("description".to_owned(), "unit".to_owned()));
    let term3 = Rc::new(Term::new("description".to_owned(), "tests".to_owned()));
    let term4 = Rc::new(Term::new("description".to_owned(), "and".to_owned()));
    let term5 = Rc::new(Term::new("description".to_owned(), "integration".to_owned()));
    let term6 = Rc::new(Term::new("description".to_owned(), "tests".to_owned()));

    postings_table.add(term1.clone(), 0);
    postings_table.add(term2.clone(), 0);
    postings_table.add(term3.clone(), 1);
    postings_table.add(term4.clone(), 2);
    postings_table.add(term5.clone(), 3);
    postings_table.add(term6.clone(), 4);

    assert_eq!(postings_table.table.len(), 5);

    assert_eq!(postings_table.get(&term1).unwrap().freq, 1);
    assert_eq!(postings_table.get(&term1).unwrap().positions.len(), 1);
    assert_eq!(postings_table.get(&term1).unwrap().positions[0], 0);

    assert_eq!(postings_table.get(&term3).unwrap().freq, 2);
    assert_eq!(postings_table.get(&term3).unwrap().positions.len(), 2);
    assert_eq!(postings_table.get(&term3).unwrap().positions[0], 1);
    assert_eq!(postings_table.get(&term3).unwrap().positions[1], 4);
}

#[test]
fn postings_table_values_and_clear() {
    let mut table = PostingsTable::new();
    table.add(Rc::new(Term::new("f".to_owned(), "b".to_owned())), 0);
    table.add(Rc::new(Term::new("f".to_owned(), "a".to_owned())), 1);
    table.add(Rc::new(Term::new("f".to_owned(), "b".to_owned())), 2);
    let values = table.values();
    assert_eq!(values.len(), 2);
    assert_eq!(values[0].term.text, "b");
    assert_eq!(values[0].positions, vec![0, 2]);
    assert_eq!(values[1].term.text, "a");
    assert_eq!(table.len(), 2);
    table.clear();
    assert_eq!(table.len(), 0);
    assert!(table.get(&Term::new("f".to_owned(), "a".to_owned())).is_none());
}

#[test]
fn test_field_infos() {
    let mut field_infos = FieldInfos::new();

    field_infos.add("user_id".to_string(), true);
    field_infos.add("user_name".to_string(), true);
    field_infos.add("title".to_string(), true);

    assert_eq!(field_infos.get_field_number("user_id").unwrap(), 0);
    assert_eq!(field_infos.get_field_number("user_name").unwrap(), 1);
    assert_eq!(field_infos.get_field_number("title").unwrap(), 2);

    assert_eq!(field_infos.get_field_name(0).unwrap(), "user_id");
    assert_eq!(field_infos.get_field_name(1).unwrap(), "user_name");
    assert_eq!(field_infos.get_field_name(2).unwrap(), "title");

    let field = field_infos.get_field_info_by_name("user_id").unwrap();
    assert_eq!(field.name, "user_id");
    assert_eq!(field.is_indexed, true);
    assert_eq!(field.number, 0);
}

#[test]
fn field_infos_keep_the_first_registration() {
    let mut field_infos = FieldInfos::new();
    field_infos.add("user_id".to_string(), true);
    field_infos.add("user_name".to_string(), true);
    field_infos.add("title".to_string(), true);
    field_infos.add("user_id".to_string(), false);
    field_infos.add("title".to_string(), false);
    assert_eq!(field_infos.size(), 3);
    let field = field_infos.get_field_info_by_name("user_id").unwrap();
    assert_eq!(field.number, 0);
    assert_eq!(field.is_indexed, true);
    assert_eq!(field_infos.get_field_info_by_number(2).unwrap().name, "title");
    assert!(field_infos.get_field_info_by_number(3).is_none());
    assert!(field_infos.get_field_info_by_name("none").is_none());
    assert_eq!(field_infos.get_field_number("none"), None);
    assert_eq!(field_infos.get_field_name(3), None);
}

#[test]
fn field_infos_add_other_renumbers() {
    let mut a = FieldInfos::new();
    a.add("x".to_string(), true);
    let mut b = FieldInfos::new();
    b.add("y".to_string(), false);
    b.add("x".to_string(), false);
    a.add_other(&b);
    assert_eq!(a.size(), 2);
    assert_eq!(a.get_field_number("x"), Some(0));
    assert_eq!(a.get_field_number("y"), Some(1));
    assert_eq!(a.get_field_info_by_name("x").unwrap().is_indexed, true);
    assert_eq!(a.get_field_info_by_name("y").unwrap().is_indexed, false);
}

#[test]
fn test_posting_sorting() {
    let mut postings = vec![
        Posting::new(Rc::new(Term::new("b".to_string(), "a".to_string())), 3),
        Posting::new(Rc::new(Term::new("a".to_string(), "b".to_string())), 1),
        Posting::new(Rc::new(Term::new("a".to_string(), "a".to_string())), 2),
        Posting::new(Rc::new(Term::new("a".to_string(), "c".to_string())), 4),
    ];

    postings.sort_by_key(|p| p.term.clone());

    assert_eq!(postings.get(0).unwrap().term, Term::new("a".to_string(), "a".to_string()).into());
    assert_eq!(postings.get(1).unwrap().term, Term::new("a".to_string(), "b".to_string()).into());
    assert_eq!(postings.get(2).unwrap().term, Term::new("a".to_string(), "c".to_string()).into());
    assert_eq!(postings.get(3).unwrap().term, Term::new("b".to_string(), "a".to_string()).into());
}

#[test]
fn posting_new_has_one_position() {
    let posting = Posting::new(Rc::new(Term::new("f".to_string(), "t".to_string())), 7);
    assert_eq!(posting.freq, 1);
    assert_eq!(posting.positions, vec![7]);
}

#[test]
fn test_get_last_commit_generation() {
    let test_cases = vec![
        (vec!["segments".to_string()], 0),
        (vec!["segments_1".to_string()], 1),
        (vec!["segments_1".to_string(), "segments_2".to_string()], 2),
        (vec!["segments_2".to_string(), "segments_1".to_string(), "_1.si".to_string()], 2),
        (vec!["segments_1".to_string(), "segments_5".to_string(), "segments_2".to_string()], 5),
    ];

    for (files, expected) in test_cases {
        assert_eq!(get_last_commit_generation(files).unwrap(), expected);
    }
}

#[test]
fn last_commit_generation_of_the_listing_with_base_36() {
    let files = vec![
        "segments_10".to_string(),
        "segments_1".to_string(),
        "segments_2".to_string(),
        "_1.si".to_string(),
    ];
    assert_eq!(get_last_commit_generation(files).unwrap(), 36);
}

#[test]
fn last_commit_generation_fails_without_a_commit() {
    assert!(matches!(
        get_last_commit_generation(vec!["_1.si".to_string()]),
        Err(IndexError::NoSegmentsFile)
    ));
    assert!(matches!(get_last_commit_generation(vec![]), Err(IndexError::NoSegmentsFile)));
    assert!(matches!(
        get_last_commit_generation(vec!["segments_1".to_string(), "segments_".to_string()]),
        Err(IndexError::BadSegmentsFileName)
    ));
}

#[test]
fn test_get_generation_from_file_name() {
    let test_cases = vec![
        ("segments", 0),        // No number after '_', expect 0
        ("segments_1", 1),      // "1" in base-36 = 1
        ("segments_10", 36),    // "10" in base-36 = 36
        ("segments_36", 114),   // "36" in base-36 = 3*36 + 6 = 114
        ("segments_100", 1296), // "100" in base-36 = 1*36^2 = 1296
    ];

    for (file_name, expected) in test_cases {
        assert_eq!(get_generation_from_file_name(file_name), Some(expected));
    }
}

#[test]
fn generation_from_other_names() {
    assert_eq!(get_generation_from_file_name("segments_"), None);
    assert_eq!(get_generation_from_file_name("segments_!"), None);
    assert_eq!(get_generation_from_file_name("segments.gen"), None);
    assert_eq!(get_generation_from_file_name("_1.si"), None);
    assert_eq!(get_generation_from_file_name(""), None);
    assert_eq!(get_generation_from_file_name("segments_zz"), Some(35 * 36 + 35));
    assert_eq!(get_generation_from_file_name("segments_ZZ"), Some(35 * 36 + 35));
    assert_eq!(get_generation_from_file_name("segments_+a"), Some(10));
    assert_eq!(get_generation_from_file_name("segments_3w5e11264sgsf"), Some(u64::MAX));
    assert_eq!(get_generation_from_file_name("segments_3w5e11264sgsg"), None);
}

#[test]
fn test_term_ord() {
    let term1 = Term::new("a".to_string(), "a".to_string());
    let term2 = Term::new("a".to_string(), "b".to_string());
    let term3 = Term::new("b".to_string(), "a".to_string());

    assert!(term1 < term2);
    assert!(term2 < term3);
    assert!(term1 < term3);
}

#[test]
fn test_term_sorting() {
    let mut terms = vec![
        Term::new("a".to_string(), "b".to_string()),
        Term::new("a".to_string(), "a".to_string()),
        Term::new("b".to_string(), "a".to_string()),
    ];

    terms.sort();

    assert_eq!(
        terms,
        vec![
            Term::new("a".to_string(), "a".to_string()),
            Term::new("a".to_string(), "b".to_string()),
            Term::new("b".to_string(), "a".to_string()),
        ]
    );
}

#[test]
fn term_order_goes_by_bytes() {
    let short = Term::new("a".to_string(), "ab".to_string());
    let long = Term::new("a".to_string(), "abc".to_string());
    let upper = Term::new("a".to_string(), "Z".to_string());
    let accent = Term::new("a".to_string(), "\u{e9}".to_string());
    assert!(short.precedes(&long));
    assert!(!long.precedes(&short));
    assert!(!short.precedes(&short));
    assert!(upper.precedes(&short));
    assert!(long.precedes(&accent));
    assert!(short.same(&Term::new("a".to_string(), "ab".to_string())));
    assert!(!short.same(&long));
    assert!(short == Term::new("a".to_string(), "ab".to_string()));
    assert!(long > short);
}

#[test]
fn postings_table_sorts_by_term() {
    let mut table = PostingsTable::new();
    let terms = [("b", "a"), ("a", "b"), ("a", "a"), ("a", "c"), ("a", "b"), ("", "z"), ("a", "")];
    for (position, (field, text)) in terms.iter().enumerate() {
        table.add(Rc::new(Term::new(field.to_string(), text.to_string())), position);
    }
    table.sort();
    let order: Vec<(String, String, Vec<u32>)> = table
        .values()
        .iter()
        .map(|p| (p.term.field.clone(), p.term.text.clone(), p.positions.clone()))
        .collect();
    let expected: Vec<(String, String, Vec<u32>)> = [
        ("", "z", vec![5]),
        ("a", "", vec![6]),
        ("a", "a", vec![2]),
        ("a", "b", vec![1, 4]),
        ("a", "c", vec![3]),
        ("b", "a", vec![0]),
    ]
    .iter()
    .map(|(f, t, p)| (f.to_string(), t.to_string(), p.clone()))
    .collect();
    assert_eq!(order, expected);
    assert_eq!(table.get(&Term::new("a".to_string(), "b".to_string())).unwrap().freq, 2);
}

#[test]
fn last_segments_file_name_of_a_listing() {
    let files = vec![
        "segments_10".to_string(),
        "segments_1".to_string(),
        "segments_2".to_string(),
        "_1.si".to_string(),
    ];
    assert_eq!(last_segments_file_name(files).unwrap(), "segments_10");
    let names = |names: &[&str]| names.iter().map(|n| n.to_string()).collect::<Vec<String>>();
    // the result is always one of the listed names
    assert_eq!(last_segments_file_name(names(&["_0.si", "segments"])).unwrap(), "segments");
    assert_eq!(last_segments_file_name(names(&["segments_ZZ"])).unwrap(), "segments_ZZ");
    assert_eq!(last_segments_file_name(names(&["segments_0"])).unwrap(), "segments_0");
    assert_eq!(last_segments_file_name(names(&["segments_0", "segments"])).unwrap(), "segments");
    assert_eq!(
        last_segments_file_name(names(&["segments_+a", "segments_0a", "segments_9"])).unwrap(),
        "segments_+a"
    );
    assert_eq!(
        last_segments_file_name(names(&["segments_0a", "segments_a", "segments_A"])).unwrap(),
        "segments_a"
    );
    assert_eq!(
        last_segments_file_name(names(&["segments_3w5e11264sgsf", "segments"])).unwrap(),
        "segments_3w5e11264sgsf"
    );
    assert!(matches!(last_segments_file_name(vec![]), Err(IndexError::NoSegmentsFile)));
}

#[test]
fn file_names_of_generations() {
    assert_eq!(file_name_from_generation(0), "segments");
    assert_eq!(file_name_from_generation(1), "segments_1");
    assert_eq!(file_name_from_generation(35), "segments_z");
    assert_eq!(file_name_from_generation(36), "segments_10");
    assert_eq!(file_name_from_generation(1296), "segments_100");
    assert_eq!(file_name_from_generation(u64::MAX), "segments_3w5e11264sgsf");
    for generation in [0u64, 1, 9, 10, 35, 36, 114, 1295, 1296, 1 << 40, u64::MAX] {
        let name = file_name_from_generation(generation);
        assert_eq!(get_generation_from_file_name(&name), Some(generation));
    }
}
