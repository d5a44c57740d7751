use hydration::id::SerializedDataId;
use hydration::trace::truncate_outer_html;

#[test]
fn new_is_decimal() {
    assert_eq!(SerializedDataId::new(0).as_key(), "0");
    assert_eq!(SerializedDataId::new(4).as_key(), "4");
    assert_eq!(SerializedDataId::new(1234567).as_key(), "1234567");
    assert_eq!(SerializedDataId::new(usize::MAX).as_key(), usize::MAX.to_string());
}

#[test]
fn children_extend_the_anchor() {
    let four = SerializedDataId::new(4);
    assert_eq!(four.child(0).as_key(), "4.0");
    assert_eq!(four.child(0).child(2).as_key(), "4.0.2");
    assert_eq!(four.child(u64::MAX).as_key(), format!("4.{}", u64::MAX));
}

#[test]
fn root_anchor_children_are_top_level_ids() {
    let root = SerializedDataId::root_anchor();
    assert_eq!(root.as_key(), "");
    assert_eq!(root.child(3).as_key(), "3");
    assert_eq!(root.child(3), SerializedDataId::new(3));
    assert_eq!(SerializedDataId::default(), root);
}

#[test]
fn browser_local_and_throwaway_keys() {
    assert_eq!(SerializedDataId::browser_local(0).as_key(), "c0");
    assert_eq!(SerializedDataId::browser_local(17).as_key(), "c17");
    assert_eq!(SerializedDataId::throwaway().as_key(), "discard");
}

#[test]
fn key_round_trip() {
    let id = SerializedDataId::from_key("7.1.9".to_string());
    assert_eq!(id.as_key(), "7.1.9");
    assert_eq!(SerializedDataId::from_key(id.as_key().to_string()), id);
    assert_eq!(id.clone(), id);
}

#[test]
fn children_of_distinct_anchors_differ() {
    // "1.2" + "3" and "1" + "23" could only collide if the dot were ambiguous.
    let a = SerializedDataId::from_key("1.2".to_string()).child(3);
    let b = SerializedDataId::new(1).child(23);
    assert_eq!(a.as_key(), "1.2.3");
    assert_eq!(b.as_key(), "1.23");
    assert_ne!(a, b);
    assert_ne!(SerializedDataId::new(12), SerializedDataId::new(1).child(2));
}

#[test]
fn id_kinds_never_collide() {
    let tree = SerializedDataId::new(0).child(0);
    assert_ne!(tree, SerializedDataId::browser_local(0));
    assert_ne!(tree, SerializedDataId::throwaway());
    assert_ne!(SerializedDataId::browser_local(1), SerializedDataId::throwaway());
}

#[test]
fn error_id_hashes_the_key_bytes() {
    assert_eq!(SerializedDataId::root_anchor().error_id(), 0);
    assert_eq!(SerializedDataId::from_key("a".to_string()).error_id(), 97);
    assert_eq!(SerializedDataId::from_key("ab".to_string()).error_id(), 97 * 31 + 98);
    assert_eq!(SerializedDataId::new(4).child(0).error_id(), (52 * 31 + 46) * 31 + 48);
    // a multi-byte character contributes each of its UTF-8 bytes
    assert_eq!(
        SerializedDataId::from_key("é".to_string()).error_id(),
        0xC3 * 31 + 0xA9
    );
}

#[test]
fn error_id_wraps() {
    let key = "z".repeat(40);
    let mut expected: usize = 0;
    for b in key.bytes() {
        expected = expected.wrapping_mul(31).wrapping_add(b as usize);
    }
    assert_eq!(SerializedDataId::from_key(key).error_id(), expected);
}

#[test]
fn outer_html_is_truncated_for_traces() {
    assert_eq!(truncate_outer_html("<div></div>".to_string()), "<div></div>");
    let exact = "a".repeat(500);
    assert_eq!(truncate_outer_html(exact.clone()), exact);
    let long = "a".repeat(600);
    assert_eq!(
        truncate_outer_html(long),
        format!("{}…[truncated, total 600b]", "a".repeat(500))
    );
    let multi = format!("{}é{}", "a".repeat(498), "x".repeat(10));
    assert_eq!(
        truncate_outer_html(multi),
        format!("{}é…[truncated, total 510b]", "a".repeat(498))
    );
}
