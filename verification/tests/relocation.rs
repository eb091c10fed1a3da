use consistent_hashing::{ConsistentHasing, Server};

fn assignments(ring: &ConsistentHasing, keys: usize) -> Vec<String> {
    (0..keys)
        .map(|i| ring.lookup(format!("user-{}", i).as_bytes()).unwrap().to_string())
        .collect()
}

fn ring_of(servers: usize, nodes_each: u32) -> ConsistentHasing {
    let mut ring = ConsistentHasing::new();
    for i in 0..servers {
        assert_eq!(ring.add(Server::new("backend", &format!("server-{}", i)), nodes_each), Ok(()));
    }
    ring
}

#[test]
fn adding_a_server_moves_about_one_key_in_n_plus_one() {
    let servers = 10;
    let mut ring = ring_of(servers, 200);
    let before = assignments(&ring, 10_000);
    assert_eq!(ring.add(Server::new("backend", "server-new"), 200), Ok(()));
    let after = assignments(&ring, 10_000);
    let mut moved = 0usize;
    for (old, new) in before.iter().zip(after.iter()) {
        if old != new {
            moved += 1;
            assert_eq!(new, "server-new");
        }
    }
    let fraction = moved as f64 / 10_000.0;
    let expected = 1.0 / (servers as f64 + 1.0);
    assert!(fraction > expected / 2.0, "moved {}", fraction);
    assert!(fraction < expected * 2.0, "moved {}", fraction);
}

#[test]
fn removing_a_server_moves_its_keys_and_no_others() {
    let servers = 10;
    let mut ring = ring_of(servers, 200);
    let before = assignments(&ring, 10_000);
    assert_eq!(ring.remove("server-3"), Ok(()));
    let after = assignments(&ring, 10_000);
    let mut moved = 0usize;
    for (old, new) in before.iter().zip(after.iter()) {
        if old == "server-3" {
            moved += 1;
            assert!(new != "server-3");
        } else {
            assert_eq!(old, new);
        }
    }
    let fraction = moved as f64 / 10_000.0;
    let expected = 1.0 / servers as f64;
    assert!(fraction > expected / 2.0, "moved {}", fraction);
    assert!(fraction < expected * 2.0, "moved {}", fraction);
}

#[test]
fn every_server_gets_a_share_of_the_keys() {
    let ring = ring_of(8, 200);
    let owners = assignments(&ring, 10_000);
    for i in 0..8 {
        let key = format!("server-{}", i);
        let share = owners.iter().filter(|o| **o == key).count() as f64 / 10_000.0;
        assert!(share > 0.125 / 2.0, "{} has {}", key, share);
        assert!(share < 0.125 * 2.0, "{} has {}", key, share);
    }
}
