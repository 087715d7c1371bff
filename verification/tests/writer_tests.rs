use oscar_io::doc::{Document, Identification, Metadata};
use oscar_io::encoder::{
    check_schema, document_schema, encode_annotation, encode_batch, encode_headers, encode_lines,
    encode_sentence_ids, DocGroup, DocPart, LeafColumn, SchemaDescriptor,
};
use oscar_io::error::Error;

fn ident(label: &str, prob: &str) -> Identification {
    Identification::new(label.to_string(), prob.to_string())
}

#[test]
fn test_id_auto() {
    let sentence_ids = vec![
        Some(ident("en", "1.0")),
        Some(ident("fr", "0.1")),
        Some(ident("az", "0.2")),
        None,
        Some(ident("am", "0.3")),
        None,
        Some(ident("bar", "0.4")),
        Some(ident("zh", "0.5")),
    ];

    let cols = encode_sentence_ids(&sentence_ids, 0);
    println!("def: {:?}", cols.def_levels);
    println!("rep: {:?}", cols.rep_levels);
    println!("{:?}", cols.labels);
    println!("{:?}", cols.probs);
    // the first entry is present, so the list opens at position 0 and
    // every entry is defined at level 1; absent entries carry no value
    assert_eq!(cols.def_levels, vec![1, 1, 1, 1, 1, 1, 1, 1]);
    assert_eq!(cols.rep_levels, vec![0, 1, 1, 1, 1, 1, 1, 1]);
    assert_eq!(cols.labels[0], Some("en".to_string()));
    assert_eq!(cols.labels[3], None);
    assert_eq!(cols.probs[7], Some("0.5".to_string()));
}

#[test]
fn test_sentence_ids_open_pattern() {
    let ids = vec![Some(ident("fr", "1.0")), None, Some(ident("en", "1.0")), Some(ident("de", "1.0"))];
    let cols = encode_sentence_ids(&ids, 0);
    assert_eq!(cols.rep_levels, vec![0, 1, 1, 1]);
    assert_eq!(cols.def_levels, vec![1, 1, 1, 1]);
}

#[test]
fn test_sentence_ids_collapsed_pattern() {
    let ids = vec![None, Some(ident("en", "1.0"))];
    let cols = encode_sentence_ids(&ids, 0);
    assert_eq!(cols.rep_levels, vec![0, 0]);
    assert_eq!(cols.def_levels, vec![0, 1]);

    // with a nonzero enclosing level the same shapes shift by the base
    let cols = encode_sentence_ids(&ids, 1);
    assert_eq!(cols.rep_levels, vec![1, 1]);
    assert_eq!(cols.def_levels, vec![1, 2]);
}

#[test]
fn from_vec() {
    let docs: Vec<Document> = ["hello", "second document", "third document\n :)"]
        .into_iter()
        .map(|content| Document::new(content.to_string(), Vec::new(), Metadata::default()))
        .collect();

    let docgroup = DocGroup::new(&docs);
    println!("{docgroup:#?}");
    assert_eq!(docgroup.contents.len(), 3);
    assert_eq!(docgroup.contents[0], "hello".to_string());
    assert_eq!(docgroup.contents[2], "third document\n :)".to_string());
    assert_eq!(docgroup.warc_headers.len(), 3);
    assert_eq!(docgroup.annotations, vec![None, None, None]);
    assert_eq!(docgroup.ids[1], ident("en", "1.0"));
    assert_eq!(docgroup.line_ids[0], vec![Some(ident("en", "1.0"))]);
}

#[test]
fn foo() {
    let d = Document::new("hello!".to_string(), Vec::new(), Metadata::default());
    let mut d_iter = d.iter_parquet();
    assert_eq!(d_iter.next(), Some(DocPart::Content("hello!".to_string())));
    assert_eq!(d_iter.next(), Some(DocPart::Warc(Vec::new())));
    assert_eq!(d_iter.next(), Some(DocPart::Annotation(None)));
    assert_eq!(d_iter.next(), Some(DocPart::Id(ident("en", "1.0"))));
    assert_eq!(
        d_iter.next(),
        Some(DocPart::LineIds(vec![Some(ident("en", "1.0"))]))
    );
    assert_eq!(d_iter.next(), None);
}

#[test]
fn test_leaf_column_invariant() {
    let good = LeafColumn {
        values: vec![Some("a".to_string()), None],
        def_levels: vec![1, 0],
        rep_levels: vec![0, 0],
    };
    assert!(good.check().is_ok());

    let bad = LeafColumn {
        values: vec![Some("a".to_string())],
        def_levels: vec![1, 0],
        rep_levels: vec![0],
    };
    match bad.check() {
        Err(Error::EncodingInvariantViolation) => {}
        x => panic!("wrong return: {:?}", x),
    }
}

#[test]
fn test_schema_mismatch_is_input_level() {
    let canonical = document_schema();
    assert!(check_schema(&canonical).is_ok());

    let mut wrong = SchemaDescriptor { leaves: canonical.leaves.clone() };
    wrong.leaves.pop();
    match check_schema(&wrong) {
        Err(Error::SchemaMismatch) => {}
        x => panic!("wrong return: {:?}", x),
    }
}

#[test]
fn test_lines_leaf() {
    let col = encode_lines(&"first\nsecond\nthird".to_string());
    assert_eq!(
        col.values,
        vec![
            Some("first".to_string()),
            Some("second".to_string()),
            Some("third".to_string())
        ]
    );
    assert_eq!(col.def_levels, vec![1, 1, 1]);
    assert_eq!(col.rep_levels, vec![0, 1, 1]);

    let col = encode_lines(&String::new());
    assert_eq!(col.values, vec![Some(String::new())]);
    assert_eq!(col.def_levels, vec![1]);
    assert_eq!(col.rep_levels, vec![0]);
}

#[test]
fn test_annotation_leaf() {
    let col = encode_annotation(&None);
    assert_eq!(col.values, vec![None]);
    assert_eq!(col.def_levels, vec![0]);
    assert_eq!(col.rep_levels, vec![0]);

    let col = encode_annotation(&Some(Vec::new()));
    assert_eq!(col.values, vec![None]);
    assert_eq!(col.def_levels, vec![1]);
    assert_eq!(col.rep_levels, vec![0]);

    let col = encode_annotation(&Some(vec!["short_sentences".to_string(), "header".to_string()]));
    assert_eq!(
        col.values,
        vec![Some("short_sentences".to_string()), Some("header".to_string())]
    );
    assert_eq!(col.def_levels, vec![2, 2]);
    assert_eq!(col.rep_levels, vec![0, 1]);
}

#[test]
fn test_headers_leaf() {
    let cols = encode_headers(&Vec::new());
    assert_eq!(cols.keys, vec![None]);
    assert_eq!(cols.values, vec![None]);
    assert_eq!(cols.def_levels, vec![0]);
    assert_eq!(cols.rep_levels, vec![0]);

    let cols = encode_headers(&vec![
        ("warc-type".to_string(), "conversion".to_string()),
        ("content-length".to_string(), "5095".to_string()),
    ]);
    assert_eq!(cols.keys[0], Some("warc-type".to_string()));
    assert_eq!(cols.values[1], Some("5095".to_string()));
    assert_eq!(cols.def_levels, vec![1, 1]);
    assert_eq!(cols.rep_levels, vec![0, 1]);
}

#[test]
fn test_encode_batch() {
    let docs = vec![
        Document::new("a\nb".to_string(), Vec::new(), Metadata::default()),
        Document::new("c".to_string(), Vec::new(), Metadata::default()),
    ];
    let cols = encode_batch(&docs, &document_schema()).unwrap();
    assert_eq!(cols.len(), 2);
    assert_eq!(cols[0].lines.rep_levels, vec![0, 1]);
    assert_eq!(cols[1].lines.rep_levels, vec![0]);
    assert_eq!(cols[0].sentence_ids.def_levels, vec![2]);
    assert_eq!(cols[0].sentence_ids.rep_levels, vec![1]);
    assert!(cols[0].lines.check().is_ok());

    let mut wrong = SchemaDescriptor { leaves: document_schema().leaves };
    wrong.leaves.clear();
    match encode_batch(&docs, &wrong) {
        Err(Error::SchemaMismatch) => {}
        x => panic!("wrong return: {:?}", x),
    }
}

#[test]
fn test_per_record_error_kind() {
    assert!(Error::MalformedRecord("x".to_string()).is_per_record());
    assert!(!Error::IoFailure("x".to_string()).is_per_record());
    assert!(!Error::EncodingInvariantViolation.is_per_record());
}
