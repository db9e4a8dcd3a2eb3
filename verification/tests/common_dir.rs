// An in-memory directory for the tests, and the tests that go through it.
use std::cell::RefCell;
use std::collections::BTreeMap;
use std::rc::Rc;
use std::time::SystemTime;

use ferrocene::analysis::StandardAnalyzer;
use ferrocene::document::{Document, Field};
use ferrocene::index::document_writer::DocumentWriter;
use ferrocene::index::fields_writer::FieldsWriter;
use ferrocene::index::Term;
use ferrocene::index::field_info::FieldInfos;
use ferrocene::index::segment_infos::{
    get_last_segments_file_name, read_latest_segment_infos, read_segment_infos,
};
use ferrocene::index::IndexError;
use ferrocene::store::ram_directory::{RamInputStream, RamOutputStream};
use ferrocene::store::{Directory, DirectoryError, FormatError};

type Files = Rc<RefCell<BTreeMap<String, Vec<u8>>>>;

struct MemDirectory {
    files: Files,
}

impl MemDirectory {
    fn new() -> MemDirectory {
        MemDirectory { files: Rc::new(RefCell::new(BTreeMap::new())) }
    }

    fn put(&self, name: &str, data: Vec<u8>) {
        self.files.borrow_mut().insert(name.to_string(), data);
    }
}

fn missing(name: &str) -> DirectoryError {
    DirectoryError::IOError(std::io::Error::new(std::io::ErrorKind::NotFound, name.to_string()))
}

impl Directory for MemDirectory {
    type Output = RamOutputStream;
    type Input = RamInputStream;

    fn list(&self) -> Result<Vec<String>, DirectoryError> {
        Ok(self.files.borrow().keys().cloned().collect())
    }

    fn file_exists(&self, name: &str) -> bool {
        self.files.borrow().contains_key(name)
    }

    fn file_modified_at(&self, name: &str) -> Result<SystemTime, DirectoryError> {
        if self.file_exists(name) {
            Ok(SystemTime::UNIX_EPOCH)
        } else {
            Err(missing(name))
        }
    }

    fn file_length(&self, name: &str) -> Result<u64, DirectoryError> {
        match self.files.borrow().get(name) {
            Some(data) => Ok(data.len() as u64),
            None => Err(missing(name)),
        }
    }

    fn delete_file(&self, name: &str) -> Result<(), DirectoryError> {
        match self.files.borrow_mut().remove(name) {
            Some(_) => Ok(()),
            None => Err(missing(name)),
        }
    }

    fn rename_file(&self, from: &str, to: &str) -> Result<(), DirectoryError> {
        let data = self.files.borrow_mut().remove(from);
        match data {
            Some(data) => {
                self.files.borrow_mut().insert(to.to_string(), data);
                Ok(())
            }
            None => Err(missing(from)),
        }
    }

    fn create_file(&self, name: &str) -> Result<RamOutputStream, DirectoryError> {
        if self.file_exists(name) {
            return Err(DirectoryError::IOError(std::io::Error::new(
                std::io::ErrorKind::AlreadyExists,
                name.to_string(),
            )));
        }
        self.files.borrow_mut().insert(name.to_string(), Vec::new());
        Ok(RamOutputStream::new())
    }

    fn close_file(&self, name: &str, output: RamOutputStream) -> Result<(), DirectoryError> {
        self.files.borrow_mut().insert(name.to_string(), output.into_bytes());
        Ok(())
    }

    fn open_file(&self, name: &str) -> Result<RamInputStream, DirectoryError> {
        match self.files.borrow().get(name) {
            Some(data) => Ok(RamInputStream::new(data.clone())),
            None => Err(missing(name)),
        }
    }

    fn close(&self) -> Result<(), DirectoryError> {
        Ok(())
    }
}

#[test]
fn test_field_infos_io() {
    let mut field_infos = FieldInfos::new();

    field_infos.add("user_id".to_string(), true);
    field_infos.add("user_name".to_string(), true);
    field_infos.add("title".to_string(), true);

    let directory = MemDirectory::new();

    // Write field-infos to file
    field_infos.write(&directory, "field-infos.fnm").unwrap();

    // Read field-infos from file
    let mut field_infos_read = FieldInfos::new();
    field_infos_read.read(&directory, "field-infos.fnm").unwrap();

    assert_eq!(field_infos.get_field_number("user_id").unwrap(), 0);
    assert_eq!(field_infos.get_field_number("user_name").unwrap(), 1);
    assert_eq!(field_infos.get_field_number("title").unwrap(), 2);

    assert_eq!(field_infos.get_field_name(0).unwrap(), "user_id");
    assert_eq!(field_infos.get_field_name(1).unwrap(), "user_name");
    assert_eq!(field_infos.get_field_name(2).unwrap(), "title");

    // what was read is what was written
    assert_eq!(field_infos_read.size(), 3);
    assert_eq!(field_infos_read.get_field_number("user_id").unwrap(), 0);
    assert_eq!(field_infos_read.get_field_number("user_name").unwrap(), 1);
    assert_eq!(field_infos_read.get_field_number("title").unwrap(), 2);
    assert_eq!(field_infos_read.get_field_name(2).unwrap(), "title");
    assert_eq!(
        directory.files.borrow().get("field-infos.fnm").unwrap(),
        &vec![
            3u8, 7, b'u', b's', b'e', b'r', b'_', b'i', b'd', 1, 9, b'u', b's', b'e', b'r', b'_',
            b'n', b'a', b'm', b'e', 1, 5, b't', b'i', b't', b'l', b'e', 1
        ]
    );
}

#[test]
fn field_infos_write_fails_when_the_file_exists() {
    let mut field_infos = FieldInfos::new();
    field_infos.add("a".to_string(), false);
    let directory = MemDirectory::new();
    field_infos.write(&directory, "x.fnm").unwrap();
    assert!(matches!(field_infos.write(&directory, "x.fnm"), Err(IndexError::Directory(_))));
}

#[test]
fn field_infos_read_reports_a_missing_file_and_a_short_file() {
    let directory = MemDirectory::new();
    let mut field_infos = FieldInfos::new();
    assert!(matches!(field_infos.read(&directory, "none.fnm"), Err(IndexError::Directory(_))));
    directory.put("short.fnm", vec![2, 1, b'a', 1, 1]);
    assert!(matches!(
        field_infos.read(&directory, "short.fnm"),
        Err(IndexError::Format(FormatError::UnexpectedEof))
    ));
    // nothing is registered from a file that cannot be decoded as a whole
    assert_eq!(field_infos.size(), 0);
    assert_eq!(field_infos.get_field_number("a"), None);

    field_infos.add("kept".to_string(), true);
    directory.put("bad.fnm", vec![2, 1, b'b', 0, 1, 0xff, 0]);
    assert!(matches!(
        field_infos.read(&directory, "bad.fnm"),
        Err(IndexError::Format(FormatError::InvalidUtf8))
    ));
    assert_eq!(field_infos.size(), 1);
    assert_eq!(field_infos.get_field_number("b"), None);
}

#[test]
fn test_get_last_segments_file_name() {
    let directory = MemDirectory::new();
    directory.put("segments_10", vec![]);
    directory.put("segments_1", vec![]);
    directory.put("segments_2", vec![]);
    directory.put("_1.si", vec![]);

    let result = get_last_segments_file_name(&directory).unwrap();

    assert_eq!(result, "segments_10");
}

#[test]
fn last_segments_file_name_needs_a_commit() {
    let directory = MemDirectory::new();
    directory.put("_1.si", vec![]);
    assert!(matches!(get_last_segments_file_name(&directory), Err(IndexError::NoSegmentsFile)));
    directory.put("segments.gen", vec![]);
    assert!(matches!(
        get_last_segments_file_name(&directory),
        Err(IndexError::BadSegmentsFileName)
    ));
}

fn vint(out: &mut Vec<u8>, mut v: u64) {
    while v >= 0x80 {
        out.push((v % 0x80) as u8 + 0x80);
        v /= 0x80;
    }
    out.push(v as u8);
}

fn string(out: &mut Vec<u8>, s: &str) {
    vint(out, s.len() as u64);
    out.extend_from_slice(s.as_bytes());
}

fn header(out: &mut Vec<u8>, codec: &str, id: &[u8; 16], suffix: &str) {
    out.extend_from_slice(&0x3fd76c17u32.to_be_bytes());
    string(out, codec);
    out.extend_from_slice(&7u32.to_be_bytes());
    out.extend_from_slice(id);
    out.push(suffix.len() as u8);
    out.extend_from_slice(suffix.as_bytes());
}

fn segment_file(id: &[u8; 16], docs: u32) -> Vec<u8> {
    let mut out = Vec::new();
    header(&mut out, "Lucene70SegmentInfo", id, "");
    for v in [7u64, 7, 3] {
        vint(&mut out, v);
    }
    out.push(1);
    for v in [7u64, 6, 0] {
        vint(&mut out, v);
    }
    out.extend_from_slice(&docs.to_be_bytes());
    out.push(1);
    vint(&mut out, 2);
    string(&mut out, "os");
    string(&mut out, "Linux");
    string(&mut out, "source");
    string(&mut out, "flush");
    vint(&mut out, 2);
    string(&mut out, "_0.cfs");
    string(&mut out, "_0.si");
    vint(&mut out, 1);
    string(&mut out, "mode");
    string(&mut out, "BEST_SPEED");
    vint(&mut out, 0);
    out
}

fn commit_file(segments: &[(&str, [u8; 16])]) -> Vec<u8> {
    let mut out = Vec::new();
    header(&mut out, "segments", &[9u8; 16], "4");
    for v in [7u64, 7, 3] {
        vint(&mut out, v);
    }
    vint(&mut out, 7);
    out.extend_from_slice(&13u64.to_be_bytes());
    vint(&mut out, 2);
    out.extend_from_slice(&(segments.len() as u32).to_be_bytes());
    if !segments.is_empty() {
        for v in [7u64, 6, 0] {
            vint(&mut out, v);
        }
    }
    for (name, id) in segments {
        string(&mut out, name);
        out.extend_from_slice(id);
        string(&mut out, "Lucene70");
        out.extend_from_slice(&u64::MAX.to_be_bytes());
        out.extend_from_slice(&0u32.to_be_bytes());
        out.extend_from_slice(&u64::MAX.to_be_bytes());
        out.extend_from_slice(&5u64.to_be_bytes());
        out.extend_from_slice(&1u32.to_be_bytes());
        vint(&mut out, 1);
        string(&mut out, "_0_1.fnm");
        out.extend_from_slice(&1u32.to_be_bytes());
        string(&mut out, "price");
        string(&mut out, "_0_1.dvd");
    }
    vint(&mut out, 1);
    string(&mut out, "sync_id");
    string(&mut out, "abc");
    out.extend_from_slice(&0xc02893e8u32.to_be_bytes());
    out.extend_from_slice(&0u32.to_be_bytes());
    out
}

#[test]
fn read_segment_infos_reads_a_commit_with_two_segments() {
    let directory = MemDirectory::new();
    directory.put("_0.si", segment_file(&[1u8; 16], 2));
    directory.put("_1.si", segment_file(&[2u8; 16], 1));
    directory.put("segments_3", commit_file(&[("_0", [1u8; 16]), ("_1", [2u8; 16])]));
    directory.put("segments_4", commit_file(&[("_1", [2u8; 16]), ("_0", [1u8; 16])]));

    let infos = read_segment_infos(&directory, "segments_3").unwrap();
    assert_eq!(infos.generation, 3);
    assert_eq!((infos.version.major, infos.version.minor, infos.version.bugfix), (7, 7, 3));
    assert_eq!(infos.index_created_version_major, 7);
    assert_eq!(infos.sis_version, 13);
    assert_eq!(infos.sis_counter, 2);
    assert_eq!(infos.id.0, vec![9u8; 16]);
    assert_eq!(infos.min_segment_lucene_version.unwrap().minor, 6);
    assert_eq!(infos.user_data.get("sync_id").unwrap(), "abc");
    assert_eq!(infos.segments.len(), 2);

    let first = &infos.segments[0];
    assert_eq!(first.info.name, "_0");
    assert_eq!(first.info.id.0, vec![1u8; 16]);
    assert_eq!(first.info.doc_count, 2);
    assert!(first.info.is_compound);
    assert_eq!(first.info.version.bugfix, 3);
    assert_eq!(first.info.min_version.unwrap().major, 7);
    assert_eq!(first.info.diagnostics.get("os").unwrap(), "Linux");
    assert_eq!(first.info.diagnostics.get("source").unwrap(), "flush");
    assert!(first.info.diagnostics.get("java").is_none());
    assert!(first.info.files.contains("_0.si"));
    assert!(!first.info.files.contains("_1.si"));
    assert_eq!(first.info.attributes.get("mode").unwrap(), "BEST_SPEED");
    assert_eq!(first.info.num_sort_fields, 0);
    assert_eq!(first.del_gen, -1);
    assert_eq!(first.del_count, 0);
    assert_eq!(first.field_infos_gen, -1);
    assert_eq!(first.dv_gen, 5);
    assert_eq!(first.soft_delete_count, 1);
    assert!(first.field_infos_files.contains("_0_1.fnm"));
    assert_eq!(first.dv_files.get("price").unwrap(), "_0_1.dvd");
    assert_eq!(infos.segments[1].info.name, "_1");
    assert_eq!(infos.segments[1].info.doc_count, 1);

    // the order of the file is kept, and the last commit is the one read
    let latest = read_latest_segment_infos(&directory).unwrap();
    assert_eq!(latest.generation, 4);
    assert_eq!(latest.segments[0].info.name, "_1");
    assert_eq!(latest.segments[1].info.name, "_0");
}

#[test]
fn read_segment_infos_reads_a_commit_without_segments() {
    let directory = MemDirectory::new();
    directory.put("segments", commit_file(&[]));
    let infos = read_segment_infos(&directory, "segments").unwrap();
    assert_eq!(infos.generation, 0);
    assert!(infos.segments.is_empty());
    assert!(infos.min_segment_lucene_version.is_none());
}

#[test]
fn read_segment_infos_fails_as_a_whole() {
    let directory = MemDirectory::new();
    directory.put("_0.si", segment_file(&[1u8; 16], 2));
    let good = commit_file(&[("_0", [1u8; 16])]);

    let mut bad_magic = good.clone();
    bad_magic[0] = 0;
    directory.put("segments_1", bad_magic);
    assert!(matches!(
        read_segment_infos(&directory, "segments_1"),
        Err(IndexError::Format(FormatError::BadMagic))
    ));

    let mut short = good.clone();
    short.truncate(good.len() - 3);
    directory.put("segments_2", short);
    assert!(matches!(
        read_segment_infos(&directory, "segments_2"),
        Err(IndexError::Format(FormatError::UnexpectedEof))
    ));

    let mut bad_text = good.clone();
    // the first byte of the codec name in the header
    bad_text[5] = 0xff;
    directory.put("segments_3", bad_text);
    assert!(matches!(
        read_segment_infos(&directory, "segments_3"),
        Err(IndexError::Format(FormatError::InvalidUtf8))
    ));

    // the file of a segment is missing
    directory.put("segments_4", commit_file(&[("_7", [1u8; 16])]));
    assert!(matches!(
        read_segment_infos(&directory, "segments_4"),
        Err(IndexError::Directory(_))
    ));

    assert!(matches!(
        read_segment_infos(&directory, "segments-5"),
        Err(IndexError::BadSegmentsFileName)
    ));
    assert!(matches!(read_segment_infos(&directory, "segments_9"), Err(IndexError::Directory(_))));
}

#[test]
fn a_document_can_be_registered_through_the_directory() {
    let mut doc = Document::new();
    doc.add(Field::keyword("title".to_owned(), "Tests".to_owned()));
    let mut infos = FieldInfos::new();
    infos.add_doc(&doc);
    assert_eq!(infos.size(), 1);
}

#[test]
fn test_document_writer() {
    // Setup
    let directory = MemDirectory::new();
    let analyzer = StandardAnalyzer::new();

    let mut document_writer = DocumentWriter::new(analyzer, directory);

    let mut doc = Document::new();
    doc.add(Field::keyword("title".to_owned(), "Tests".to_owned()));
    doc.add(Field::text("description".to_owned(), "unit tests and integration tests".to_owned()));

    // Execute
    document_writer.add_doc("test-segment", doc).unwrap();

    // Verify files generated
    {
        let files = document_writer.directory.files.borrow();
        assert_eq!(
            files.get("test-segment.fnm").unwrap(),
            &[&[2u8, 5][..], b"title", &[1, 11], b"description", &[1]].concat()
        );
        assert_eq!(files.get("test-segment.fdx").unwrap(), &vec![0u8; 8]);
        assert_eq!(
            files.get("test-segment.fdt").unwrap(),
            &[&[2u8, 0, 0, 5][..], b"Tests", &[1, 1, 32], b"unit tests and integration tests"]
                .concat()
        );
    }

    // Verify Field Infos
    let field_infos = document_writer.field_infos;
    assert_eq!(field_infos.size(), 2);
    assert_eq!(field_infos.get_field_name(0).unwrap(), "title");
    assert_eq!(field_infos.get_field_name(1).unwrap(), "description");

    // Verify Postings Table
    let postings_table = document_writer.postings_table;
    assert_eq!(postings_table.table.len(), 5);

    let term1 = Rc::new(Term::new("title".to_owned(), "Tests".to_owned()));
    assert_eq!(postings_table.get(&term1).unwrap().freq, 1);
    assert_eq!(postings_table.get(&term1).unwrap().positions.len(), 1);
    assert_eq!(postings_table.get(&term1).unwrap().positions[0], 0);

    let term2: Rc<Term> = Rc::new(Term::new("description".to_owned(), "tests".to_owned()));
    assert_eq!(postings_table.get(&term2).unwrap().freq, 2);
    assert_eq!(postings_table.get(&term2).unwrap().positions.len(), 2);
    assert_eq!(postings_table.get(&term2).unwrap().positions[0], 1);
    assert_eq!(postings_table.get(&term2).unwrap().positions[1], 4);

    assert_eq!(document_writer.field_lengths, vec![1, 5]);

    // the postings stand in the order of their terms
    let order: Vec<String> = postings_table.values().iter().map(|p| p.term.text.clone()).collect();
    assert_eq!(order, vec!["and", "integration", "tests", "unit", "Tests"]);
}

#[test]
fn document_writer_fails_when_a_file_of_the_segment_exists() {
    let mut writer = DocumentWriter::new(StandardAnalyzer::new(), MemDirectory::new());
    let mut doc = Document::new();
    doc.add(Field::text("a".to_owned(), "x".to_owned()));
    writer.add_doc("s", doc.clone()).unwrap();
    assert!(matches!(writer.add_doc("s", doc), Err(IndexError::Directory(_))));
    assert_eq!(writer.field_infos.size(), 1);
}

#[test]
fn invert_doc_counts_on_over_fields_of_one_name_and_stops_at_the_limit() {
    let mut writer = DocumentWriter::new(StandardAnalyzer::new(), MemDirectory::new());
    writer.max_field_length = 2;
    let mut doc = Document::new();
    doc.add(Field::text("body".to_owned(), "a b c d e".to_owned()));
    doc.add(Field::unindexed("note".to_owned(), "kept out".to_owned()));
    doc.add(Field::text("body".to_owned(), "a z".to_owned()));
    doc.add(Field::keyword("body".to_owned(), "whole value".to_owned()));
    writer.field_infos.add_doc(&doc);
    writer.field_lengths = vec![0; writer.field_infos.size()];
    writer.invert_doc(&doc);

    let body = |text: &str| Term::new("body".to_owned(), text.to_owned());
    let table = &writer.postings_table;
    // positions 0, 1, 2 of the first field; then the limit is passed
    assert_eq!(table.get(&body("b")).unwrap().positions, vec![1]);
    assert_eq!(table.get(&body("c")).unwrap().positions, vec![2]);
    assert!(table.get(&body("d")).is_none());
    // the next field of that name goes on at 3 and gives one token
    assert_eq!(table.get(&body("a")).unwrap().positions, vec![0, 3]);
    assert_eq!(table.get(&body("a")).unwrap().freq, 2);
    assert!(table.get(&body("z")).is_none());
    assert_eq!(table.get(&body("whole value")).unwrap().positions, vec![4]);
    assert!(table.get(&Term::new("note".to_owned(), "kept".to_owned())).is_none());
    assert_eq!(table.len(), 4);
    assert_eq!(writer.field_lengths, vec![5, 0]);
}

#[test]
fn fields_writer_points_at_each_document() {
    let directory = MemDirectory::new();
    let mut infos = FieldInfos::new();
    let mut doc1 = Document::new();
    doc1.add(Field::keyword("filename".to_string(), "README.md".to_string()));
    doc1.add(Field::new("contents".to_string(), "not stored".to_string()));
    let mut doc2 = Document::new();
    doc2.add(Field::text("contents".to_string(), "MIT".to_string()));
    infos.add_doc(&doc1);
    infos.add_doc(&doc2);

    let mut writer = FieldsWriter::new(&directory, "segment-1", &infos).unwrap();
    writer.add_doc(&doc1);
    writer.add_doc(&doc2);
    writer.close().unwrap();

    let files = directory.files.borrow();
    let first = [&[1u8, 0, 0, 9][..], b"README.md"].concat();
    let second = [&[1u8, 1, 1, 3][..], b"MIT"].concat();
    assert_eq!(files.get("segment-1.fdt").unwrap(), &[first.clone(), second].concat());
    assert_eq!(
        files.get("segment-1.fdx").unwrap(),
        &[0u64.to_be_bytes(), (first.len() as u64).to_be_bytes()].concat()
    );
}

#[test]
fn the_last_commit_file_is_a_listed_file() {
    let directory = MemDirectory::new();
    directory.put("_0.si", vec![]);
    directory.put("segments", commit_file(&[]));
    assert_eq!(get_last_segments_file_name(&directory).unwrap(), "segments");
    let infos = read_latest_segment_infos(&directory).unwrap();
    assert_eq!(infos.generation, 0);
    assert!(infos.segments.is_empty());

    directory.put("segments_A", commit_file(&[]));
    assert_eq!(get_last_segments_file_name(&directory).unwrap(), "segments_A");
    assert_eq!(read_latest_segment_infos(&directory).unwrap().generation, 10);
}

#[test]
fn read_segment_infos_reads_a_commit_with_user_data_only() {
    let directory = MemDirectory::new();
    let mut bytes = Vec::new();
    header(&mut bytes, "segments", &[1u8; 16], "2");
    bytes.extend_from_slice(&[7, 7, 3, 7]);
    bytes.extend_from_slice(&13u64.to_be_bytes());
    bytes.push(2);
    bytes.extend_from_slice(&0u32.to_be_bytes());
    bytes.extend_from_slice(&[1, 1, b'k', 1, b'v']);
    bytes.extend_from_slice(&0xc02893e8u32.to_be_bytes());
    bytes.extend_from_slice(&0u32.to_be_bytes());
    directory.put("segments_2", bytes);

    let infos = read_segment_infos(&directory, "segments_2").unwrap();
    assert_eq!(infos.generation, 2);
    assert_eq!((infos.version.major, infos.version.minor, infos.version.bugfix), (7, 7, 3));
    assert_eq!(infos.index_created_version_major, 7);
    assert_eq!(infos.sis_version, 13);
    assert_eq!(infos.sis_counter, 2);
    assert!(infos.segments.is_empty());
    assert!(infos.min_segment_lucene_version.is_none());
    assert_eq!(infos.user_data.get("k").unwrap(), "v");
    assert_eq!(infos.id.0, vec![1u8; 16]);
}

#[test]
fn a_record_that_is_cut_off_or_holds_bad_text_gives_a_format_error() {
    let directory = MemDirectory::new();
    directory.put("_0.si", segment_file(&[1u8; 16], 2));
    directory.put("_1.si", segment_file(&[2u8; 16], 1));
    let good = commit_file(&[("_0", [1u8; 16]), ("_1", [2u8; 16])]);
    let one = commit_file(&[("_0", [1u8; 16])]);
    // a commit without segments is its head, without the oldest version, and its tail
    let tail = commit_file(&[]).len() - 52;
    let record = good.len() - one.len();
    let second = one.len() - tail;
    let first = second - record;
    assert_eq!((first, record, tail), (55, 89, 21));

    let mut cut = good.clone();
    cut.truncate(second + 2);
    directory.put("segments_1", cut);
    assert!(matches!(
        read_segment_infos(&directory, "segments_1"),
        Err(IndexError::Format(FormatError::UnexpectedEof))
    ));

    let mut bad = good.clone();
    // the first byte of the name of the second segment
    bad[second + 1] = 0xff;
    directory.put("segments_2", bad);
    assert!(matches!(
        read_segment_infos(&directory, "segments_2"),
        Err(IndexError::Format(FormatError::InvalidUtf8))
    ));

    // the first record is cut off in its reference: the directory is not asked
    let empty = MemDirectory::new();
    let mut cut_reference = good.clone();
    cut_reference.truncate(first + 2);
    empty.put("segments_3", cut_reference);
    assert!(matches!(
        read_segment_infos(&empty, "segments_3"),
        Err(IndexError::Format(FormatError::UnexpectedEof))
    ));
}

#[test]
fn fields_writer_new_reports_the_directory() {
    let directory = MemDirectory::new();
    let infos = FieldInfos::new();
    directory.put("s.fdx", vec![]);
    assert!(matches!(FieldsWriter::new(&directory, "s", &infos), Err(IndexError::Directory(_))));
    // the data file was created before the index file was refused
    assert!(directory.files.borrow().contains_key("s.fdt"));
    assert!(matches!(FieldsWriter::new(&directory, "s", &infos), Err(IndexError::Directory(_))));
    assert!(FieldsWriter::new(&directory, "t", &infos).is_ok());
}
