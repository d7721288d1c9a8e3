//! Round-trip and validation tests for the snapshot model and both stream
//! formats.

use i3_autolayout::codec::{decode, encode, StreamFormat};
use i3_autolayout::errors::{Error, ValidationError};
use i3_autolayout::snapshot::{KindNode, LayoutNode, SavedLayout, SavedNode, SavedWindow};

fn node(id: u64, kind: KindNode, layout: LayoutNode, children: Vec<u64>) -> SavedNode {
    SavedNode::new(id, kind, layout, children)
}

fn sample_layout() -> SavedLayout {
    let records = vec![
        node(100, KindNode::Workspace(3), LayoutNode::SplitH, vec![10]),
        node(10, KindNode::Splitter, LayoutNode::SplitV, vec![1, 2]),
        node(
            1,
            KindNode::NormalWindow(SavedWindow::new(800, 600)),
            LayoutNode::SplitH,
            vec![],
        ),
        node(
            2,
            KindNode::NormalWindow(SavedWindow::new(-5, 0)),
            LayoutNode::Tabbed,
            vec![],
        ),
    ];
    SavedLayout::new(records).expect("sample layout must validate")
}

fn assert_same_records(a: &SavedLayout, b: &SavedLayout) {
    assert_eq!(a.node_count(), b.node_count());
    for i in 0..a.node_count() {
        assert_eq!(a.node_at(i), b.node_at(i));
    }
}

#[test]
fn round_trip_binary() {
    let layout = sample_layout();
    let bytes = encode(&layout, StreamFormat::Binary);
    let back = decode(&bytes, StreamFormat::Binary).expect("binary round trip");
    assert_same_records(&layout, &back);
}

#[test]
fn round_trip_text() {
    let layout = sample_layout();
    let bytes = encode(&layout, StreamFormat::Text);
    let back = decode(&bytes, StreamFormat::Text).expect("text round trip");
    assert_same_records(&layout, &back);
}

#[test]
fn serialize_deserialize_match_formats() {
    let layout = sample_layout();
    let bin = layout.serialize(false);
    let txt = layout.serialize(true);
    assert_eq!(bin, encode(&layout, StreamFormat::Binary));
    assert_eq!(txt, encode(&layout, StreamFormat::Text));
    assert_same_records(&layout, &SavedLayout::deserialize(&bin, false).unwrap());
    assert_same_records(&layout, &SavedLayout::deserialize(&txt, true).unwrap());
}

#[test]
fn binary_bytes_exact() {
    // one window record: count, id, kind tag + payload, layout tag,
    // child count — all little endian, fixed width
    let records = vec![node(
        7,
        KindNode::NormalWindow(SavedWindow::new(-1, 2)),
        LayoutNode::Stacked,
        vec![],
    )];
    let layout = SavedLayout::new(records).unwrap();
    let bytes = encode(&layout, StreamFormat::Binary);
    let mut expected: Vec<u8> = Vec::new();
    expected.extend_from_slice(&1u64.to_le_bytes()); // record count
    expected.extend_from_slice(&7u64.to_le_bytes()); // id
    expected.extend_from_slice(&1u32.to_le_bytes()); // window tag
    expected.extend_from_slice(&(-1i64).to_le_bytes()); // width
    expected.extend_from_slice(&2i64.to_le_bytes()); // height
    expected.extend_from_slice(&2u32.to_le_bytes()); // stacked tag
    expected.extend_from_slice(&0u64.to_le_bytes()); // child count
    assert_eq!(bytes, expected);
}

#[test]
fn text_bytes_are_json() {
    let layout = sample_layout();
    let bytes = encode(&layout, StreamFormat::Text);
    let value: serde_json::Value =
        serde_json::from_slice(&bytes).expect("text format must parse as JSON");
    let array = value.as_array().expect("top level is an array");
    assert_eq!(array.len(), 4);
    assert_eq!(array[0]["id"], 100);
    assert_eq!(array[0]["kind"]["Workspace"], 3);
    assert_eq!(array[0]["layout"], "SplitH");
    assert_eq!(array[2]["kind"]["NormalWindow"]["width"], 800);
    assert_eq!(array[3]["kind"]["NormalWindow"]["width"], -5);
    assert_eq!(array[1]["children"][0], 1);
    assert_eq!(array[1]["children"][1], 2);
}

#[test]
fn text_accepts_extra_whitespace() {
    let layout = sample_layout();
    let bytes = encode(&layout, StreamFormat::Text);
    let mut spaced: Vec<u8> = Vec::new();
    for b in bytes {
        spaced.push(b);
        if b == b',' as u8 || b == b'[' as u8 {
            spaced.extend_from_slice(b"  \t\n");
        }
    }
    let back = decode(&spaced, StreamFormat::Text).expect("whitespace tolerant");
    assert_same_records(&layout, &back);
}

#[test]
fn trailing_bytes_are_ignored() {
    let layout = sample_layout();
    for format in [StreamFormat::Binary, StreamFormat::Text] {
        let mut bytes = encode(&layout, format);
        bytes.extend_from_slice(b"garbage after the stream");
        let back = decode(&bytes, format).expect("trailing bytes tolerated");
        assert_same_records(&layout, &back);
    }
}

#[test]
fn dangling_child_is_rejected_binary() {
    // a stream whose only record references child id 999, which has no
    // record of its own; built by hand since validation refuses such a list
    let mut bytes: Vec<u8> = Vec::new();
    bytes.extend_from_slice(&1u64.to_le_bytes());
    bytes.extend_from_slice(&100u64.to_le_bytes());
    bytes.extend_from_slice(&0u32.to_le_bytes()); // workspace tag
    bytes.extend_from_slice(&1i32.to_le_bytes()); // workspace number
    bytes.extend_from_slice(&0u32.to_le_bytes()); // splith tag
    bytes.extend_from_slice(&1u64.to_le_bytes()); // one child
    bytes.extend_from_slice(&999u64.to_le_bytes()); // dangling id
    match decode(&bytes, StreamFormat::Binary) {
        Err(Error::Validation(ValidationError::MissingChild { node, child })) => {
            assert_eq!(node, 100);
            assert_eq!(child, 999);
        }
        other => panic!("expected a dangling-child validation error, got {:?}", other),
    }
}

#[test]
fn dangling_child_is_rejected_text() {
    let text = b"[ { \"id\" : 100 , \"kind\" : { \"Workspace\" : 1 } , \"layout\" : \"SplitH\" , \"children\" : [ 999 ] } ]";
    let bytes = text.to_vec();
    match decode(&bytes, StreamFormat::Text) {
        Err(Error::Validation(ValidationError::MissingChild { node, child })) => {
            assert_eq!(node, 100);
            assert_eq!(child, 999);
        }
        other => panic!("expected a dangling-child validation error, got {:?}", other),
    }
}

#[test]
fn empty_record_list_is_rejected() {
    let mut bytes: Vec<u8> = Vec::new();
    bytes.extend_from_slice(&0u64.to_le_bytes());
    assert_eq!(
        decode(&bytes, StreamFormat::Binary).unwrap_err(),
        Error::Validation(ValidationError::EmptyLayout)
    );
    let text = b"[ ]".to_vec();
    assert_eq!(
        decode(&text, StreamFormat::Text).unwrap_err(),
        Error::Validation(ValidationError::EmptyLayout)
    );
}

#[test]
fn malformed_streams_are_rejected() {
    let truncated = vec![1u8, 2, 3];
    assert_eq!(
        decode(&truncated, StreamFormat::Binary).unwrap_err(),
        Error::Validation(ValidationError::Malformed)
    );
    let garbage = b"{ not an array }".to_vec();
    assert_eq!(
        decode(&garbage, StreamFormat::Text).unwrap_err(),
        Error::Validation(ValidationError::Malformed)
    );
    let bad_layout = b"[ { \"id\" : 1 , \"kind\" : \"Splitter\" , \"layout\" : \"Spiral\" , \"children\" : [ ] } ]"
        .to_vec();
    assert_eq!(
        decode(&bad_layout, StreamFormat::Text).unwrap_err(),
        Error::Validation(ValidationError::Malformed)
    );
}

#[test]
fn validation_errors_at_construction() {
    assert_eq!(
        SavedLayout::new(vec![]).unwrap_err(),
        Error::Validation(ValidationError::EmptyLayout)
    );
    let records = vec![node(1, KindNode::Splitter, LayoutNode::SplitH, vec![2])];
    assert_eq!(
        SavedLayout::new(records).unwrap_err(),
        Error::Validation(ValidationError::MissingChild { node: 1, child: 2 })
    );
}

#[test]
fn lookup_and_root() {
    let layout = sample_layout();
    assert_eq!(layout.root().id(), 100);
    assert!(matches!(layout.root().kind(), KindNode::Workspace(3)));
    let splitter = layout.lookup_by_id(10);
    assert_eq!(splitter.layout(), LayoutNode::SplitV);
    assert_eq!(splitter.children(), &vec![1u64, 2u64]);
    let window = layout.lookup_by_id(2);
    match window.kind() {
        KindNode::NormalWindow(w) => {
            assert_eq!(w.width(), -5);
            assert_eq!(w.height(), 0);
        }
        other => panic!("expected a window, got {:?}", other),
    }
    assert!(layout.contains_id(1));
    assert!(!layout.contains_id(999));
}

#[test]
fn extreme_values_round_trip() {
    let records = vec![
        node(u64::MAX, KindNode::Workspace(i32::MIN), LayoutNode::Tabbed, vec![0]),
        node(
            0,
            KindNode::NormalWindow(SavedWindow::new(i64::MIN, i64::MAX)),
            LayoutNode::SplitV,
            vec![],
        ),
    ];
    let layout = SavedLayout::new(records).unwrap();
    for format in [StreamFormat::Binary, StreamFormat::Text] {
        let bytes = encode(&layout, format);
        let back = decode(&bytes, format).expect("extreme values round trip");
        assert_same_records(&layout, &back);
    }
}
