use plist::{Dictionary, Uid, Value};
use procreate::archive::archive_is_balanced;
use procreate::document::{File, METADATA_MEMBER, THUMBNAIL_MEMBER};
use procreate::error::Error;
use std::io::{Cursor, Write};
use zip::write::SimpleFileOptions;
use zip::{CompressionMethod, ZipWriter};

fn container(members: &[(&str, &[u8])]) -> Vec<u8> {
    let mut w = ZipWriter::new(Cursor::new(Vec::new()));
    let options = SimpleFileOptions::default().compression_method(CompressionMethod::Deflated);
    for (name, data) in members {
        w.start_file(*name, options).unwrap();
        w.write_all(data).unwrap();
    }
    w.finish().unwrap().into_inner()
}

fn handle(bytes: Vec<u8>) -> File {
    File::from_container("doc.procreate".to_string(), bytes).unwrap()
}

fn keyed_archive(top_uid: u64) -> Vec<u8> {
    let mut top = Dictionary::new();
    top.insert("root".to_string(), Value::Uid(Uid::new(top_uid)));
    let mut dict = Dictionary::new();
    dict.insert("$archiver".to_string(), Value::from("NSKeyedArchiver"));
    dict.insert("$version".to_string(), Value::from(100000u64));
    dict.insert("$top".to_string(), Value::Dictionary(top));
    dict.insert(
        "$objects".to_string(),
        Value::Array(vec![Value::from("$null"), Value::from("canvas")]),
    );
    let mut out = Vec::new();
    Value::Dictionary(dict).to_writer_binary(&mut out).unwrap();
    out
}

fn dictionary_archive(n_keys: usize, n_values: usize) -> Vec<u8> {
    let mut top = Dictionary::new();
    top.insert("root".to_string(), Value::Uid(Uid::new(1)));
    let mut object = Dictionary::new();
    object.insert("$class".to_string(), Value::Uid(Uid::new(2)));
    object.insert("NS.keys".to_string(), Value::Array(vec![Value::Uid(Uid::new(3)); n_keys]));
    object.insert("NS.objects".to_string(), Value::Array(vec![Value::Uid(Uid::new(4)); n_values]));
    let mut class = Dictionary::new();
    class.insert(
        "$classes".to_string(),
        Value::Array(vec![Value::from("NSDictionary"), Value::from("NSObject")]),
    );
    class.insert("$classname".to_string(), Value::from("NSDictionary"));
    let mut dict = Dictionary::new();
    dict.insert("$archiver".to_string(), Value::from("NSKeyedArchiver"));
    dict.insert("$version".to_string(), Value::from(100000u64));
    dict.insert("$top".to_string(), Value::Dictionary(top));
    dict.insert(
        "$objects".to_string(),
        Value::Array(vec![
            Value::from("$null"),
            Value::Dictionary(object),
            Value::Dictionary(class),
            Value::from("k"),
            Value::from("v"),
        ]),
    );
    let mut out = Vec::new();
    Value::Dictionary(dict).to_writer_binary(&mut out).unwrap();
    out
}

fn expected_metadata() -> Value {
    let mut d = Dictionary::new();
    d.insert("root".to_string(), Value::from("canvas"));
    Value::Dictionary(d)
}

#[test]
fn metadata_round_trip_on_independent_handles() {
    let bytes = container(&[(METADATA_MEMBER, &keyed_archive(1))]);
    let mut a = handle(bytes.clone());
    let mut b = handle(bytes);
    let first = a.metadata().unwrap();
    let second = b.metadata().unwrap();
    assert_eq!(first, second);
    assert_eq!(first, expected_metadata());
}

#[test]
fn segments_come_in_key_order() {
    let bytes = container(&[
        ("video/segments/clip-0.mp4", b"zero"),
        ("video/segments/clip-10.mp4", b"ten"),
        ("video/segments/clip-2.mp4", b"two"),
    ]);
    let segments = handle(bytes).timelapse_segments().unwrap();
    assert_eq!(segments, vec![b"zero".to_vec(), b"two".to_vec(), b"ten".to_vec()]);
}

#[test]
fn segments_with_equal_keys_keep_listing_order() {
    let bytes = container(&[
        ("video/segments/b-3.mp4", b"b3"),
        ("video/segments/a-1.mp4", b"a1"),
        ("video/segments/a-3.mp4", b"a3"),
    ]);
    let segments = handle(bytes).timelapse_segments().unwrap();
    assert_eq!(segments, vec![b"a1".to_vec(), b"b3".to_vec(), b"a3".to_vec()]);
}

#[test]
fn no_segments_give_an_empty_timelapse() {
    let bytes = container(&[(THUMBNAIL_MEMBER, b"png"), ("video/other.mp4", b"x")]);
    assert_eq!(handle(bytes).timelapse_segments().unwrap(), Vec::<Vec<u8>>::new());
}

#[test]
fn malformed_segment_name_fails_wherever_it_stands() {
    let bad: (&str, &[u8]) = ("video/segments/clip-abc.mp4", b"bad");
    let one: (&str, &[u8]) = ("video/segments/clip-1.mp4", b"one");
    let two: (&str, &[u8]) = ("video/segments/clip-2.mp4", b"two");
    for members in [[bad, one, two], [one, bad, two], [one, two, bad]] {
        let r = handle(container(&members)).timelapse_segments();
        assert_eq!(r, Err(Error::SegmentNameFormat));
    }
}

#[test]
fn missing_metadata_member_is_reported() {
    let mut f = handle(container(&[(THUMBNAIL_MEMBER, b"png")]));
    assert_eq!(f.metadata(), Err(Error::MemberNotFound));
    assert_eq!(f.thumbnail().unwrap(), b"png".to_vec());
}

#[test]
fn missing_thumbnail_member_is_reported() {
    let mut f = handle(container(&[(METADATA_MEMBER, &keyed_archive(1))]));
    assert_eq!(f.thumbnail(), Err(Error::MemberNotFound));
    assert_eq!(f.metadata().unwrap(), expected_metadata());
}

#[test]
fn thumbnail_bytes_are_returned_verbatim() {
    let image: &[u8] = &[0x89, b'P', b'N', b'G', 0, 1, 2, 3];
    let mut f = handle(container(&[(THUMBNAIL_MEMBER, image)]));
    assert_eq!(f.thumbnail().unwrap(), image.to_vec());
}

#[test]
fn duplicate_handles_read_independently() {
    let bytes = container(&[
        (METADATA_MEMBER, &keyed_archive(1)),
        (THUMBNAIL_MEMBER, b"png"),
        ("video/segments/clip-1.mp4", b"one"),
    ]);
    let mut a = handle(bytes.clone());
    let mut b = File::from_container(a.path().to_string(), bytes).unwrap();
    assert_eq!(a.thumbnail().unwrap(), b"png".to_vec());
    assert_eq!(a.timelapse_segments().unwrap(), vec![b"one".to_vec()]);
    assert_eq!(b.thumbnail().unwrap(), b"png".to_vec());
    assert_eq!(b.timelapse_segments().unwrap(), vec![b"one".to_vec()]);
    drop(a);
    assert_eq!(b.metadata().unwrap(), expected_metadata());
}

#[test]
fn corrupt_metadata_data_is_a_container_error() {
    let archive = keyed_archive(1);
    let mut bytes = container(&[(METADATA_MEMBER, &archive)]);
    // Local header: 30 fixed bytes, then the name; no extra field is written.
    let start = 30 + METADATA_MEMBER.len();
    let compressed = u32::from_le_bytes([bytes[18], bytes[19], bytes[20], bytes[21]]) as usize;
    for b in &mut bytes[start..start + compressed] {
        *b = 0xff;
    }
    let mut f = handle(bytes);
    assert_eq!(f.metadata(), Err(Error::ContainerFormat));
}

#[test]
fn metadata_that_is_no_property_list_is_a_parse_error() {
    let mut f = handle(container(&[(METADATA_MEMBER, b"not a property list")]));
    assert_eq!(f.metadata(), Err(Error::StructuralParse));
}

#[test]
fn dangling_object_reference_is_a_graph_error() {
    let mut f = handle(container(&[(METADATA_MEMBER, &keyed_archive(7))]));
    assert_eq!(f.metadata(), Err(Error::GraphResolution));
}

#[test]
fn bytes_that_are_no_zip_are_a_container_error() {
    let r = File::from_container("x".to_string(), b"definitely not a zip".to_vec());
    assert!(matches!(r, Err(Error::ContainerFormat)));
}

#[test]
fn handle_keeps_its_path() {
    let f = File::from_container("art/doc.procreate".to_string(), container(&[])).unwrap();
    assert_eq!(f.path(), "art/doc.procreate");
}

#[test]
fn archived_dictionary_decodes_to_key_value_pairs() {
    let mut f = handle(container(&[(METADATA_MEMBER, &dictionary_archive(1, 1))]));
    let mut pair = Dictionary::new();
    pair.insert("key".to_string(), Value::from("k"));
    pair.insert("value".to_string(), Value::from("v"));
    let mut root = Dictionary::new();
    root.insert("root".to_string(), Value::Array(vec![Value::Dictionary(pair)]));
    assert_eq!(f.metadata().unwrap(), Value::Dictionary(root));
}

#[test]
fn dictionary_with_more_keys_than_values_is_a_graph_error() {
    let mut f = handle(container(&[(METADATA_MEMBER, &dictionary_archive(2, 1))]));
    assert_eq!(f.metadata(), Err(Error::GraphResolution));
    let mut g = handle(container(&[(METADATA_MEMBER, &dictionary_archive(1, 0))]));
    assert_eq!(g.metadata(), Err(Error::GraphResolution));
}

#[test]
fn balance_check_looks_at_archived_dictionaries_only() {
    let table = |objects: Vec<Value>| {
        let mut d = Dictionary::new();
        d.insert("$objects".to_string(), Value::Array(objects));
        Value::Dictionary(d)
    };
    let dict = |k: usize, v: usize| {
        let mut d = Dictionary::new();
        d.insert("NS.keys".to_string(), Value::Array(vec![Value::from(1u64); k]));
        d.insert("NS.objects".to_string(), Value::Array(vec![Value::from(1u64); v]));
        Value::Dictionary(d)
    };
    assert!(archive_is_balanced(&table(vec![dict(1, 1), dict(0, 3), Value::from("s")])));
    assert!(!archive_is_balanced(&table(vec![Value::from("s"), dict(3, 2)])));
    assert!(archive_is_balanced(&Value::from("not a dictionary")));
    let mut no_values = Dictionary::new();
    no_values.insert("NS.keys".to_string(), Value::Array(vec![Value::from(1u64)]));
    assert!(archive_is_balanced(&table(vec![Value::Dictionary(no_values)])));
}
