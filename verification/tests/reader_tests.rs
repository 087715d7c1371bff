use std::io::Write;

use oscar_io::doc::Document;
use oscar_io::error::Error;
use oscar_io::reader::DocReader;

fn get_samples() -> &'static str {
    r#"{"content":"this is the main content","warc_headers":{"warc-type":"conversion","warc-date":"2021-09-16T11:37:01Z","warc-refers-to":"<urn:uuid:3cc5dbf1-6932-44e3-a5f9-87bddb242ed1>","warc-block-digest":"sha1:AAN5C7C7I2JOXM5ZYB5YNFPRC5N6GJES","content-type":"text/plain","warc-target-uri":"http://accueil-enfants-d-un-meme-pere.be/","content-length":"5095","warc-identified-content-language":"fra,eng","warc-record-id":"<urn:uuid:7c1c010a-61ca-4383-92ba-008390a56fc9>"},"metadata":{"identification":{"label":"fr","prob":0.9586384},"annotation":["short_sentences","header","footer"],"sentence_identifications":[{"label": "fr", "prob": 0.9}]}}
{"content":"this is the main content","warc_headers":{"warc-type":"conversion","warc-date":"2021-09-16T11:37:01Z","warc-refers-to":"<urn:uuid:3cc5dbf1-6932-44e3-a5f9-87bddb242ed1>","warc-block-digest":"sha1:AAN5C7C7I2JOXM5ZYB5YNFPRC5N6GJES","content-type":"text/plain","warc-target-uri":"http://accueil-enfants-d-un-meme-pere.be/","content-length":"5095","warc-identified-content-language":"fra,eng","warc-record-id":"<urn:uuid:7c1c010a-61ca-4383-92ba-008390a56fc9>"},"metadata":{"identification":{"label":"fr","prob":0.9586384},"annotation":["short_sentences","header","footer"],"sentence_identifications":[{"label": "fr", "prob": 0.9}]}}
{"content":"this is the main content","warc_headers":{"warc-type":"conversion","warc-date":"2021-09-16T11:37:01Z","warc-refers-to":"<urn:uuid:3cc5dbf1-6932-44e3-a5f9-87bddb242ed1>","warc-block-digest":"sha1:AAN5C7C7I2JOXM5ZYB5YNFPRC5N6GJES","content-type":"text/plain","warc-target-uri":"http://accueil-enfants-d-un-meme-pere.be/","content-length":"5095","warc-identified-content-language":"fra,eng","warc-record-id":"<urn:uuid:7c1c010a-61ca-4383-92ba-008390a56fc9>"},"metadata":{"identification":{"label":"fr","prob":0.9586384},"annotation":["short_sentences","header","footer"],"sentence_identifications":[{"label": "fr", "prob": 0.9}]}}
{"content":"this is the main content","warc_headers":{"warc-type":"conversion","warc-date":"2021-09-16T11:37:01Z","warc-refers-to":"<urn:uuid:3cc5dbf1-6932-44e3-a5f9-87bddb242ed1>","warc-block-digest":"sha1:AAN5C7C7I2JOXM5ZYB5YNFPRC5N6GJES","content-type":"text/plain","warc-target-uri":"http://accueil-enfants-d-un-meme-pere.be/","content-length":"5095","warc-identified-content-language":"fra,eng","warc-record-id":"<urn:uuid:7c1c010a-61ca-4383-92ba-008390a56fc9>"},"metadata":{"identification":{"label":"fr","prob":0.9586384},"annotation":["short_sentences","header","footer"],"sentence_identifications":[{"label": "fr", "prob": 0.9}]}}
{"content":"this is the main content","warc_headers":{"warc-type":"conversion","warc-date":"2021-09-16T11:37:01Z","warc-refers-to":"<urn:uuid:3cc5dbf1-6932-44e3-a5f9-87bddb242ed1>","warc-block-digest":"sha1:AAN5C7C7I2JOXM5ZYB5YNFPRC5N6GJES","content-type":"text/plain","warc-target-uri":"http://accueil-enfants-d-un-meme-pere.be/","content-length":"5095","warc-identified-content-language":"fra,eng","warc-record-id":"<urn:uuid:7c1c010a-61ca-4383-92ba-008390a56fc9>"},"metadata":{"identification":{"label":"fr","prob":0.9586384},"annotation":["short_sentences","header","footer"],"sentence_identifications":[{"label": "fr", "prob": 0.9}]}}"#
}

fn collect_docs(r: &mut DocReader) -> Result<Vec<Document>, Error> {
    let mut docs = Vec::new();
    while let Some(item) = r.next() {
        match item {
            Ok(d) => docs.push(d),
            Err(e) => return Err(e),
        }
    }
    Ok(docs)
}

#[test]
fn test_read_simple() {
    let content = get_samples();
    let mut r = DocReader::new(content.as_bytes().to_vec());
    for _ in 0..5 {
        assert!(r.next().is_some());
    }
    assert!(r.next().is_none());
}

#[test]
fn test_bad_format() {
    let content = r#"{"foo": "bar"}"#;
    let mut r = DocReader::new(content.as_bytes().to_vec());
    match r.next() {
        Some(Err(Error::MalformedRecord(_))) => assert!(true),
        x => panic!("wrong return: {:?}", x),
    }
}

#[test]
fn test_compressed_data() {
    let content = get_samples();

    let mut r = DocReader::new(content.as_bytes().to_vec());
    let documents = collect_docs(&mut r);

    let mut compressed_content = vec![];
    {
        let mut enc =
            flate2::write::GzEncoder::new(&mut compressed_content, flate2::Compression::fast());
        enc.write(content.as_bytes()).unwrap();
    }

    let mut r = DocReader::from_gzip(compressed_content).unwrap();
    let documents_from_compressed = collect_docs(&mut r);

    assert_eq!(documents.unwrap(), documents_from_compressed.unwrap())
}

#[test]
fn test_bad_gzip_is_io_failure() {
    let garbage = vec![1u8, 2, 3, 4, 5];
    match DocReader::from_gzip(garbage) {
        Err(Error::IoFailure(_)) => {}
        x => panic!("wrong return: {:?}", x),
    }
}

#[test]
fn test_non_utf8_line_is_malformed() {
    let mut bytes = vec![0xffu8, 0xfe, 0xff];
    bytes.push(b'\n');
    let mut r = DocReader::new(bytes);
    match r.next() {
        Some(Err(Error::MalformedRecord(_))) => {}
        x => panic!("wrong return: {:?}", x),
    }
    assert!(r.next().is_none());
}

#[test]
fn test_malformed_middle_line_is_isolated() {
    let good = r#"{"content":"x","warc_headers":{},"metadata":{"identification":{"label":"en","prob":1.0},"annotation":null,"sentence_identifications":[{"label":"en","prob":1.0}]}}"#;
    let bad = "{ this is not a record }";
    let input = format!("{good}\n{good}\n{bad}\n{good}\n{good}");
    let mut r = DocReader::new(input.into_bytes());
    let mut shape = Vec::new();
    while let Some(item) = r.next() {
        shape.push(item.is_ok());
    }
    assert_eq!(shape, vec![true, true, false, true, true]);
}

#[test]
fn test_round_trip_preserves_document() {
    let line = r#"{"content":"first line\nsecond \"quoted\" line","warc_headers":{"warc-type":"conversion","content-length":"5095"},"metadata":{"identification":{"label":"fr","prob":0.9586384},"annotation":["header","footer"],"sentence_identifications":[{"label":"fr","prob":0.9},null]}}"#;
    let doc = oscar_io::json::parse_document(line).unwrap();
    let encoded = oscar_io::json::encode_document(&doc);
    let doc2 = oscar_io::json::parse_document(encoded.as_str()).unwrap();
    assert_eq!(doc, doc2);
    assert_eq!(doc.content().as_str(), "first line\nsecond \"quoted\" line");
    let encoded2 = oscar_io::json::encode_document(&doc2);
    assert_eq!(encoded, encoded2);
}

#[test]
fn test_encode_known_document() {
    let line = r#"{"content":"x","warc_headers":{},"metadata":{"identification":{"label":"en","prob":1.0},"annotation":null,"sentence_identifications":[]}}"#;
    let doc = oscar_io::json::parse_document(line).unwrap();
    let encoded = oscar_io::json::encode_document(&doc);
    assert_eq!(encoded.as_str(), line);
}

#[test]
fn test_cross_check_with_reference_json_parser() {
    let line = r#"{"content":"a\tb","warc_headers":{"k":"v"},"metadata":{"identification":{"label":"en","prob":0.5},"annotation":null,"sentence_identifications":[null]}}"#;
    let doc = oscar_io::json::parse_document(line).unwrap();
    let encoded = oscar_io::json::encode_document(&doc);
    let ours: serde_json::Value = serde_json::from_str(encoded.as_str()).unwrap();
    let reference: serde_json::Value = serde_json::from_str(line).unwrap();
    assert_eq!(ours, reference);
    assert_eq!(doc.content().as_str(), "a\tb");
}

#[test]
fn test_control_char_round_trip() {
    let line = r#"{"content":"bell\b and feed\f here","warc_headers":{},"metadata":{"identification":{"label":"en","prob":1.0},"annotation":null,"sentence_identifications":[null]}}"#;
    let doc = oscar_io::json::parse_document(line).unwrap();
    assert_eq!(doc.content().as_str(), "bell\u{8} and feed\u{c} here");
    let encoded = oscar_io::json::encode_document(&doc);
    assert!(encoded.contains("\\b"));
    assert!(encoded.contains("\\f"));
    let doc2 = oscar_io::json::parse_document(encoded.as_str()).unwrap();
    assert_eq!(doc, doc2);
}

#[test]
fn test_unicode_escapes() {
    let line = r#"{"content":"café A","warc_headers":{},"metadata":{"identification":{"label":"fr","prob":1.0},"annotation":null,"sentence_identifications":[null]}}"#;
    let doc = oscar_io::json::parse_document(line).unwrap();
    assert_eq!(doc.content().as_str(), "caf\u{e9} A");

    // a lone surrogate escape denotes no character: the record is bad
    let bad = r#"{"content":"\ud800","warc_headers":{},"metadata":{"identification":{"label":"en","prob":1.0},"annotation":null,"sentence_identifications":[null]}}"#;
    match oscar_io::json::parse_document(bad) {
        Err(Error::MalformedRecord(_)) => {}
        x => panic!("wrong return: {:?}", x),
    }
}

#[test]
fn test_crlf_lines() {
    let good = r#"{"content":"x","warc_headers":{},"metadata":{"identification":{"label":"en","prob":1.0},"annotation":null,"sentence_identifications":[{"label":"en","prob":1.0}]}}"#;
    let input = format!("{good}\r\n{good}\r\n");
    let mut r = DocReader::new(input.into_bytes());
    assert!(matches!(r.next(), Some(Ok(_))));
    assert!(matches!(r.next(), Some(Ok(_))));
    assert!(r.next().is_none());
}
