use hash_ring::{ConstantStrategy, HashRing, HashStrategy, NodeInfo, RingNode};

// Defines a NodeInfo for a localhost address with a given port.
fn node(port: u16) -> NodeInfo {
    NodeInfo {
        host: "localhost",
        port,
    }
}

fn default_ring() -> HashRing<NodeInfo> {
    let mut nodes: Vec<NodeInfo> = Vec::new();
    nodes.push(node(15324));
    nodes.push(node(15325));
    nodes.push(node(15326));
    nodes.push(node(15327));
    nodes.push(node(15328));
    nodes.push(node(15329));
    HashRing::new(nodes, 10)
}

#[test]
fn test_empty_ring() {
    let hash_ring: HashRing<NodeInfo> = HashRing::new(vec![], 10);
    assert_eq!(None, hash_ring.get_node("hello".to_string()));
}

#[test]
fn test_default_nodes() {
    let mut nodes: Vec<NodeInfo> = Vec::new();
    nodes.push(node(15324));
    nodes.push(node(15325));
    nodes.push(node(15326));
    nodes.push(node(15327));
    nodes.push(node(15328));
    nodes.push(node(15329));

    let mut hash_ring: HashRing<NodeInfo> = HashRing::new(nodes, 10);

    assert_eq!(Some(&node(15326)), hash_ring.get_node("hello".to_string()));
    assert_eq!(Some(&node(15327)), hash_ring.get_node("dude".to_string()));
    assert_eq!(Some(&node(15324)), hash_ring.get_node("two".to_string()));

    hash_ring.remove_node(&node(15329));
    assert_eq!(Some(&node(15326)), hash_ring.get_node("hello".to_string()));

    hash_ring.add_node(&node(15329));
    assert_eq!(Some(&node(15326)), hash_ring.get_node("hello".to_string()));
}

#[derive(Clone)]
struct CustomNodeInfo {
    pub host: &'static str,
    pub port: u16,
}

impl RingNode for CustomNodeInfo {
    // Ghost trait item; erased contracts never run it.
    fn id(&self) -> vstd::seq::Seq<char> {
        panic!()
    }

    fn identity(&self) -> String {
        format!("{}:{}", self.host, self.port)
    }

    fn duplicate(&self) -> Self {
        self.clone()
    }
}

#[test]
fn test_custom_nodes() {
    let mut nodes: Vec<CustomNodeInfo> = Vec::new();
    nodes.push(CustomNodeInfo {
        host: "localhost",
        port: 15324,
    });
    nodes.push(CustomNodeInfo {
        host: "localhost",
        port: 15325,
    });
    nodes.push(CustomNodeInfo {
        host: "localhost",
        port: 15326,
    });
    nodes.push(CustomNodeInfo {
        host: "localhost",
        port: 15327,
    });
    nodes.push(CustomNodeInfo {
        host: "localhost",
        port: 15328,
    });
    nodes.push(CustomNodeInfo {
        host: "localhost",
        port: 15329,
    });

    let mut hash_ring: HashRing<CustomNodeInfo> = HashRing::new(nodes, 10);

    assert_eq!(
        Some("localhost:15326".to_string()),
        hash_ring
            .get_node("hello".to_string())
            .map(|x| x.identity())
    );
    assert_eq!(
        Some("localhost:15327".to_string()),
        hash_ring.get_node("dude".to_string()).map(|x| x.identity())
    );

    hash_ring.remove_node(&CustomNodeInfo {
        host: "localhost",
        port: 15329,
    });
    assert_eq!(
        Some("localhost:15326".to_string()),
        hash_ring
            .get_node("hello".to_string())
            .map(|x| x.identity())
    );

    hash_ring.add_node(&CustomNodeInfo {
        host: "localhost",
        port: 15329,
    });
    assert_eq!(
        Some("localhost:15326".to_string()),
        hash_ring
            .get_node("hello".to_string())
            .map(|x| x.identity())
    );
}

#[test]
fn test_remove_actual_node() {
    let mut hash_ring = default_ring();

    // This should be num nodes * num replicas
    assert_eq!(60, hash_ring.position_count());
    assert_eq!(60, hash_ring.entry_count());

    hash_ring.remove_node(&node(15326));

    // This should be num nodes * num replicas
    assert_eq!(50, hash_ring.position_count());
    assert_eq!(50, hash_ring.entry_count());
}

#[test]
fn test_remove_non_existent_node() {
    let mut hash_ring = default_ring();

    hash_ring.remove_node(&node(15330));

    // This should be num nodes * num replicas
    assert_eq!(60, hash_ring.position_count());
    assert_eq!(60, hash_ring.entry_count());
}

#[test]
fn test_custom_hasher() {
    let mut nodes: Vec<NodeInfo> = Vec::new();
    nodes.push(node(15324));
    nodes.push(node(15325));
    nodes.push(node(15326));
    nodes.push(node(15327));
    nodes.push(node(15328));
    nodes.push(node(15329));

    let hash_ring: HashRing<NodeInfo, ConstantStrategy> =
        HashRing::with_hasher(nodes, 10, ConstantStrategy { value: 1 });

    assert_eq!(Some(&node(15329)), hash_ring.get_node("hello".to_string()));
    assert_eq!(Some(&node(15329)), hash_ring.get_node("dude".to_string()));
    assert_eq!(Some(&node(15329)), hash_ring.get_node("two".to_string()));
}

#[test]
fn test_remove_owner_changes_assignment() {
    let mut hash_ring = default_ring();
    assert_eq!(Some(&node(15326)), hash_ring.get_node("hello".to_string()));

    // Removing the owner reassigns the key to a different node.
    hash_ring.remove_node(&node(15326));
    let after = hash_ring.get_node("hello".to_string()).cloned();
    assert!(after.is_some());
    assert_ne!(Some(node(15326)), after);

    // Re-adding the owner restores the original assignment.
    hash_ring.add_node(&node(15326));
    assert_eq!(Some(&node(15326)), hash_ring.get_node("hello".to_string()));
}

#[test]
fn test_repeated_lookup_is_deterministic() {
    let hash_ring = default_ring();
    let first = hash_ring.get_node("hello".to_string()).cloned();
    let second = hash_ring.get_node("hello".to_string()).cloned();
    let third = hash_ring.get_node("hello".to_string()).cloned();
    assert_eq!(first, second);
    assert_eq!(second, third);
}

#[test]
fn test_nonempty_ring_covers_every_key() {
    let hash_ring = default_ring();
    let keys = ["", "a", "hello", "dude", "two", "a much longer lookup key"];
    for key in keys {
        assert!(hash_ring.get_node(key.to_string()).is_some());
    }
}

#[test]
fn test_add_remove_inverse() {
    let mut hash_ring = default_ring();
    let before_count = hash_ring.position_count();
    let before_hello = hash_ring.get_node("hello".to_string()).cloned();
    let before_dude = hash_ring.get_node("dude".to_string()).cloned();

    hash_ring.add_node(&node(15330));
    hash_ring.remove_node(&node(15330));

    assert_eq!(before_count, hash_ring.position_count());
    assert_eq!(before_hello, hash_ring.get_node("hello".to_string()).cloned());
    assert_eq!(before_dude, hash_ring.get_node("dude".to_string()).cloned());
}

#[test]
fn test_removal_of_stranger_changes_nothing() {
    let mut hash_ring = default_ring();
    let before_hello = hash_ring.get_node("hello".to_string()).cloned();
    let before_two = hash_ring.get_node("two".to_string()).cloned();

    hash_ring.remove_node(&node(15399));

    assert_eq!(60, hash_ring.position_count());
    assert_eq!(before_hello, hash_ring.get_node("hello".to_string()).cloned());
    assert_eq!(before_two, hash_ring.get_node("two".to_string()).cloned());
}

// Sends every replica key of host "a" to position 10, of host "b" to
// position 20, and every other byte sequence past both.
struct SplitStrategy;

impl HashStrategy for SplitStrategy {
    // Ghost trait item; erased contracts never run it.
    fn digest_spec(&self, _bytes: vstd::seq::Seq<u8>) -> u64 {
        panic!()
    }

    fn digest(&self, bytes: &[u8]) -> u64 {
        match bytes.first() {
            Some(b'a') => 10,
            Some(b'b') => 20,
            _ => u64::MAX,
        }
    }
}

#[test]
fn test_wrap_around_returns_minimum_position() {
    let nodes = vec![
        NodeInfo { host: "a", port: 1 },
        NodeInfo { host: "b", port: 1 },
    ];
    let hash_ring: HashRing<NodeInfo, SplitStrategy> =
        HashRing::with_hasher(nodes, 3, SplitStrategy);

    // Successor rule within range.
    assert_eq!(Some(&NodeInfo { host: "a", port: 1 }), hash_ring.get_node("apple".to_string()));
    assert_eq!(Some(&NodeInfo { host: "b", port: 1 }), hash_ring.get_node("banana".to_string()));

    // A digest past every stored position wraps to the smallest one.
    assert_eq!(Some(&NodeInfo { host: "a", port: 1 }), hash_ring.get_node("zebra".to_string()));
}

#[test]
fn test_zero_and_negative_replicas_stay_empty() {
    let zero: HashRing<NodeInfo> = HashRing::new(vec![node(1), node(2)], 0);
    assert_eq!(0, zero.position_count());
    assert_eq!(None, zero.get_node("hello".to_string()));

    let negative: HashRing<NodeInfo> = HashRing::new(vec![node(1)], -3);
    assert_eq!(0, negative.position_count());
    assert_eq!(None, negative.get_node("hello".to_string()));
}

#[test]
fn test_node_identity_rendering() {
    assert_eq!("localhost:15324".to_string(), node(15324).identity());
    assert_eq!("h:0".to_string(), NodeInfo { host: "h", port: 0 }.identity());
    assert_eq!(
        "example:65535".to_string(),
        NodeInfo { host: "example", port: 65535 }.identity()
    );
}

#[test]
fn test_duplicate_preserves_node() {
    let n = node(15324);
    let d = n.duplicate();
    assert_eq!(n, d);
}
