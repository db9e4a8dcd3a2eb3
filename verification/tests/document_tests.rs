use ferrocene::analysis::{Analyzer, StandardAnalyzer};
use ferrocene::codec::{Codec, FormatKind, SimpleTextCodec};
use ferrocene::document::{Document, Field};

#[test]
fn test_document() {
    let mut doc = Document::new();
    doc.add(Field::keyword("name".to_string(), "John".to_string()));
    doc.add(Field::new("age".to_string(), "30".to_string()));

    assert_eq!(doc.get("name"), Some("John"));
    assert_eq!(doc.get("age"), Some("30"));
    assert_eq!(doc.get("weight"), None);
}

#[test]
fn document_test_display() {
    let mut doc = Document::new();
    doc.add(Field::keyword("name".to_string(), "John".to_string()));
    doc.add(Field::new("age".to_string(), "30".to_string()));

    assert_eq!(doc.to_string(), "Document<Keyword<name:John> Field<age:30>>");
}

#[test]
fn document_get_takes_the_first_field_of_a_name() {
    let mut doc = Document::new();
    assert_eq!(doc.to_string(), "Document<>");
    doc.add(Field::text("a".to_string(), "1".to_string()));
    doc.add(Field::text("a".to_string(), "2".to_string()));
    assert_eq!(doc.get("a"), Some("1"));
    assert_eq!(doc.get_field("a").unwrap().value, "1");
}

#[test]
fn test_field() {
    let field = Field::new("name".to_string(), "John".to_string());
    assert_eq!(field.name, "name");
    assert_eq!(field.value, "John");
    assert_eq!(field.is_stored, false);
    assert_eq!(field.is_indexed, true);
    assert_eq!(field.is_analyzed, true);
    assert_eq!(f32::from_bits(field.boost_bits), 1.0);
}

#[test]
fn test_keyword() {
    let field = Field::keyword("id".to_string(), "test123".to_string());
    assert_eq!(field.name, "id");
    assert_eq!(field.value, "test123");
    assert_eq!(field.is_stored, true);
    assert_eq!(field.is_indexed, true);
    assert_eq!(field.is_analyzed, false);
    assert_eq!(f32::from_bits(field.boost_bits), 1.0);
}

#[test]
fn test_text() {
    let field = Field::text("description".to_string(), "Hello World".to_string());
    assert_eq!(field.name, "description");
    assert_eq!(field.value, "Hello World");
    assert_eq!(field.is_stored, true);
    assert_eq!(field.is_indexed, true);
    assert_eq!(field.is_analyzed, true);
    assert_eq!(f32::from_bits(field.boost_bits), 1.0);
}

#[test]
fn test_unindexed() {
    let field = Field::unindexed("email".to_string(), "john@example.com".to_string());
    assert_eq!(field.name, "email");
    assert_eq!(field.value, "john@example.com");
    assert_eq!(field.is_stored, true);
    assert_eq!(field.is_indexed, false);
    assert_eq!(field.is_analyzed, false);
    assert_eq!(f32::from_bits(field.boost_bits), 1.0);
}

#[test]
fn field_test_display() {
    let keyword = Field::keyword("id".to_string(), "test123".to_string());
    let text = Field::text("description".to_string(), "Hello World".to_string());
    let unindexed = Field::unindexed("email".to_string(), "john@example.com".to_string());
    let field = Field::new("name".to_string(), "John".to_string());

    assert_eq!(keyword.to_string(), "Keyword<id:test123>");
    assert_eq!(text.to_string(), "Text<description:Hello World>");
    assert_eq!(unindexed.to_string(), "UnIndexed<email:john@example.com>");
    assert_eq!(field.to_string(), "Field<name:John>");
}

#[test]
fn standard_analyzer_splits_at_single_spaces() {
    let analyzer = StandardAnalyzer::new();
    assert_eq!(
        analyzer.analyze("unit tests and integration tests"),
        vec!["unit", "tests", "and", "integration", "tests"]
    );
    assert_eq!(analyzer.analyze(""), vec![""]);
    assert_eq!(analyzer.analyze("a  b "), vec!["a", "", "b", ""]);
    assert_eq!(analyzer.analyze("one"), vec!["one"]);
}

#[test]
fn simple_text_codec_has_a_name_and_no_formats() {
    let codec = SimpleTextCodec::new();
    assert_eq!(codec.name(), "SimpleText");
    assert!(!codec.has_format(FormatKind::Postings));
    assert!(!codec.has_format(FormatKind::SegmentInfo));
}
