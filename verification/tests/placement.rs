use consistent_hashing::{ConsistentHasing, RingError, RingHash, Server};

/// Places a byte string at the number that its leading decimal digits spell.
struct Leading;

impl RingHash for Leading {
    // Only proofs speak of `spec_hash`; compiled code never calls it.
    fn spec_hash(_bytes: vstd::seq::Seq<u8>) -> u64 {
        unreachable!()
    }

    fn hash(bytes: &[u8]) -> u64 {
        let mut value: u64 = 0;
        for b in bytes {
            if !b.is_ascii_digit() {
                break;
            }
            value = value * 10 + (*b - b'0') as u64;
        }
        value
    }
}

/// Places every byte string at 7.
struct Seven;

impl RingHash for Seven {
    fn spec_hash(_bytes: vstd::seq::Seq<u8>) -> u64 {
        unreachable!()
    }

    fn hash(_bytes: &[u8]) -> u64 {
        7
    }
}

fn owners<H: RingHash>(ring: &ConsistentHasing<H>) -> Vec<(u64, String, u32)> {
    ring.nodes().iter().map(|n| (n.position, n.owner_key.clone(), n.sequence)).collect()
}

#[test]
fn a_single_node_serves_the_positions_beyond_it() {
    let mut ring = ConsistentHasing::<Leading>::with_separator("_");
    assert_eq!(ring.add(Server::new("only", "500"), 1), Ok(()));
    assert_eq!(owners(&ring), vec![(500, "500".to_string(), 0)]);
    assert_eq!(ring.lookup(b"501"), Ok("500"));
    assert_eq!(ring.lookup(b"18446744073709551615"), Ok("500"));
    assert_eq!(ring.lookup_position(u64::MAX), Ok("500"));
    assert_eq!(ring.lookup_position(501), Ok("500"));
    assert_eq!(ring.lookup(b"500"), Ok("500"));
    assert_eq!(ring.lookup(b"499"), Ok("500"));
    assert_eq!(ring.lookup_position(0), Ok("500"));
}

#[test]
fn lookup_picks_the_first_node_at_or_beyond_the_key() {
    let mut ring = ConsistentHasing::<Leading>::with_separator("_");
    assert_eq!(ring.add(Server::new("b", "200"), 1), Ok(()));
    assert_eq!(ring.add(Server::new("c", "300"), 1), Ok(()));
    assert_eq!(ring.add(Server::new("a", "100"), 1), Ok(()));
    assert_eq!(
        owners(&ring),
        vec![(100, "100".to_string(), 0), (200, "200".to_string(), 0), (300, "300".to_string(), 0)]
    );
    assert_eq!(ring.lookup(b"0"), Ok("100"));
    assert_eq!(ring.lookup(b"100"), Ok("100"));
    assert_eq!(ring.lookup(b"101"), Ok("200"));
    assert_eq!(ring.lookup(b"150x"), Ok("200"));
    assert_eq!(ring.lookup(b"200"), Ok("200"));
    assert_eq!(ring.lookup(b"201"), Ok("300"));
    assert_eq!(ring.lookup(b"300"), Ok("300"));
    assert_eq!(ring.lookup(b"301"), Ok("100"));
    assert_eq!(ring.lookup(b"key without digits"), Ok("100"));
    assert_eq!(ring.lookup_position(250), Ok("300"));
    assert_eq!(ring.lookup_position(u64::MAX), Ok("100"));
}

#[test]
fn removing_a_server_hands_its_keys_to_the_next_server() {
    let mut ring = ConsistentHasing::<Leading>::with_separator("_");
    for key in ["100", "200", "300"] {
        assert_eq!(ring.add(Server::new("s", key), 1), Ok(()));
    }
    assert_eq!(ring.remove("200"), Ok(()));
    assert_eq!(ring.lookup(b"150"), Ok("300"));
    assert_eq!(ring.lookup(b"100"), Ok("100"));
    assert_eq!(ring.lookup(b"250"), Ok("300"));
    assert_eq!(ring.remove("300"), Ok(()));
    assert_eq!(ring.lookup(b"150"), Ok("100"));
    assert_eq!(ring.remove("100"), Ok(()));
    assert_eq!(ring.lookup(b"150"), Err(RingError::EmptyRing));
}

#[test]
fn nodes_at_one_position_stand_by_owner_then_by_sequence() {
    let mut ring = ConsistentHasing::<Seven>::with_separator("_");
    assert_eq!(ring.add(Server::new("B", "b"), 2), Ok(()));
    assert_eq!(ring.add(Server::new("AB", "ab"), 1), Ok(()));
    assert_eq!(ring.add(Server::new("A", "a"), 2), Ok(()));
    assert_eq!(ring.add_node("b", 1), Ok(()));
    assert_eq!(
        owners(&ring),
        vec![
            (7, "a".to_string(), 0),
            (7, "a".to_string(), 1),
            (7, "ab".to_string(), 0),
            (7, "b".to_string(), 0),
            (7, "b".to_string(), 1),
            (7, "b".to_string(), 2),
        ]
    );
    assert_eq!(ring.lookup(b"any"), Ok("a"));
    assert_eq!(ring.lookup_position(7), Ok("a"));
    assert_eq!(ring.lookup_position(8), Ok("a"));
    assert_eq!(ring.remove("a"), Ok(()));
    assert_eq!(ring.lookup(b"any"), Ok("ab"));
    assert_eq!(ring.remove("ab"), Ok(()));
    assert_eq!(ring.lookup(b"any"), Ok("b"));
}

#[test]
fn the_index_does_not_depend_on_the_order_of_registration() {
    let keys = ["delta", "alpha", "charlie", "bravo"];
    let mut forward = ConsistentHasing::new();
    for key in keys.iter() {
        assert_eq!(forward.add(Server::new("s", key), 25), Ok(()));
    }
    let mut backward = ConsistentHasing::new();
    for key in keys.iter().rev() {
        assert_eq!(backward.add(Server::new("s", key), 25), Ok(()));
    }
    assert_eq!(owners(&forward), owners(&backward));
    let mut tied_forward = ConsistentHasing::<Seven>::with_separator("_");
    let mut tied_backward = ConsistentHasing::<Seven>::with_separator("_");
    for key in keys.iter() {
        assert_eq!(tied_forward.add(Server::new("s", key), 3), Ok(()));
    }
    for key in keys.iter().rev() {
        assert_eq!(tied_backward.add(Server::new("s", key), 3), Ok(()));
    }
    assert_eq!(owners(&tied_forward), owners(&tied_backward));
    assert_eq!(tied_forward.lookup(b"k"), Ok("alpha"));
}
