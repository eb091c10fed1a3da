use consistent_hashing::decimal::{decimal_string, digit_str};
use consistent_hashing::index::{insert_sorted, insertion_point, lower_bound, retain_others};
use consistent_hashing::order::{bytes_equal, bytes_less, str_equal, str_less};
use consistent_hashing::{Fnv1a, RingHash, StdHash, VirtualNode};

fn node(position: u64, owner: &str, sequence: u32) -> VirtualNode {
    VirtualNode { position, owner_key: owner.to_string(), sequence }
}

#[test]
fn decimal_numerals() {
    assert_eq!(decimal_string(0), "0");
    assert_eq!(decimal_string(7), "7");
    assert_eq!(decimal_string(10), "10");
    assert_eq!(decimal_string(1234567890), "1234567890");
    assert_eq!(decimal_string(u32::MAX), "4294967295");
    for d in 0..10u32 {
        assert_eq!(digit_str(d), d.to_string());
    }
    for n in [1u32, 9, 11, 99, 100, 101, 65535, 65536, 999999999] {
        assert_eq!(decimal_string(n), n.to_string());
    }
}

#[test]
fn byte_strings_in_lexicographic_order() {
    assert!(bytes_less(b"", b"a"));
    assert!(!bytes_less(b"", b""));
    assert!(!bytes_less(b"a", b""));
    assert!(bytes_less(b"a", b"ab"));
    assert!(!bytes_less(b"ab", b"a"));
    assert!(bytes_less(b"ab", b"b"));
    assert!(!bytes_less(b"b", b"ab"));
    assert!(bytes_less(b"abc", b"abd"));
    assert!(!bytes_less(b"abd", b"abc"));
    assert!(!bytes_less(b"abc", b"abc"));
    assert!(bytes_less(&[0x7f], &[0x80]));
    assert!(str_less("s1", "s10"));
    assert!(str_less("s10", "s2"));
    assert!(!str_less("s2", "s10"));
    assert!(str_less("z", "\u{e9}"));
}

#[test]
fn equality_of_byte_strings_and_strings() {
    assert!(bytes_equal(b"", b""));
    assert!(bytes_equal(b"abc", b"abc"));
    assert!(!bytes_equal(b"abc", b"abd"));
    assert!(!bytes_equal(b"abc", b"ab"));
    assert!(!bytes_equal(b"", b"a"));
    assert!(str_equal("hanoi", "hanoi"));
    assert!(!str_equal("hanoi", "hanoj"));
    assert!(!str_equal("hanoi", "hanoi "));
    assert!(str_equal("", ""));
}

#[test]
fn a_node_is_made_from_its_name() {
    let made = VirtualNode::create::<Fnv1a>("hanoi", "_", 12);
    assert_eq!(made.position, Fnv1a::hash(b"hanoi_12"));
    assert_eq!(made.owner_key, "hanoi");
    assert_eq!(made.sequence, 12);
    let other = VirtualNode::create::<StdHash>("hanoi", "--", 0);
    assert_eq!(other.position, StdHash::hash(b"hanoi--0"));
    assert_eq!(made.clone(), made);
}

#[test]
fn nodes_in_ring_order() {
    assert!(node(1, "b", 9).precedes(&node(2, "a", 0)));
    assert!(!node(2, "a", 0).precedes(&node(1, "b", 9)));
    assert!(node(5, "a", 9).precedes(&node(5, "b", 0)));
    assert!(!node(5, "b", 0).precedes(&node(5, "a", 9)));
    assert!(node(5, "a", 1).precedes(&node(5, "a", 2)));
    assert!(!node(5, "a", 2).precedes(&node(5, "a", 1)));
    assert!(!node(5, "a", 2).precedes(&node(5, "a", 2)));
}

#[test]
fn searching_and_changing_an_index() {
    let mut index: Vec<VirtualNode> = Vec::new();
    assert_eq!(lower_bound(&index, 10), 0);
    assert_eq!(insert_sorted(&mut index, node(30, "c", 0)), 0);
    assert_eq!(insert_sorted(&mut index, node(10, "a", 0)), 0);
    assert_eq!(insert_sorted(&mut index, node(20, "b", 0)), 1);
    assert_eq!(insert_sorted(&mut index, node(20, "a", 1)), 1);
    assert_eq!(insert_sorted(&mut index, node(40, "a", 2)), 4);
    assert_eq!(
        index,
        vec![node(10, "a", 0), node(20, "a", 1), node(20, "b", 0), node(30, "c", 0), node(40, "a", 2)]
    );
    assert_eq!(lower_bound(&index, 0), 0);
    assert_eq!(lower_bound(&index, 10), 0);
    assert_eq!(lower_bound(&index, 11), 1);
    assert_eq!(lower_bound(&index, 20), 1);
    assert_eq!(lower_bound(&index, 21), 3);
    assert_eq!(lower_bound(&index, 40), 4);
    assert_eq!(lower_bound(&index, 41), 5);
    assert_eq!(insertion_point(&index, &node(20, "ab", 0)), 2);
    assert_eq!(insertion_point(&index, &node(50, "a", 0)), 5);
    assert_eq!(insertion_point(&index, &node(0, "z", 0)), 0);
    assert_eq!(retain_others(&index, "a"), vec![node(20, "b", 0), node(30, "c", 0)]);
    assert_eq!(retain_others(&index, "b").len(), 4);
    assert_eq!(retain_others(&index, "zz"), index);
}

#[test]
fn a_node_knows_its_name() {
    assert_eq!(VirtualNode::name_of("hanoi", "_", 3), "hanoi_3");
    assert_eq!(VirtualNode::name_of("hanoi", "", 10), "hanoi10");
    assert_eq!(VirtualNode::name_of("h\u{e0} n\u{1ed9}i", "::", 4294967295), "h\u{e0} n\u{1ed9}i::4294967295");
    let made = VirtualNode::create::<StdHash>("hue", "_", 7);
    assert_eq!(made.name("_"), "hue_7");
    assert_eq!(made.position, StdHash::hash(made.name("_").as_bytes()));
}
