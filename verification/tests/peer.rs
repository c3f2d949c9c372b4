use p2p_chat::peer::PeerId;

fn sha256_peer_bytes(fill: u8) -> Vec<u8> {
    let mut b = vec![0x12, 0x20];
    b.extend(std::iter::repeat(fill).take(32));
    b
}

#[test]
fn peer_id_from_valid_bytes() {
    let bytes = sha256_peer_bytes(7);
    let p = PeerId::from_bytes(&bytes).expect("a sha256 multihash is a peer id");
    assert_eq!(p.to_bytes(), bytes);
}

#[test]
fn peer_id_from_generated_key() {
    let key = libp2p_identity::Keypair::generate_ed25519();
    let theirs = libp2p_identity::PeerId::from(key.public());
    let bytes = theirs.to_bytes();
    let ours = PeerId::from_bytes(&bytes).expect("libp2p's own peer id parses");
    assert_eq!(ours.to_bytes(), bytes);
}

#[test]
fn peer_id_from_invalid_bytes() {
    assert!(PeerId::from_bytes(&[1, 2, 3]).is_none());
    assert!(PeerId::from_bytes(&[]).is_none());
    // A sha256 multihash whose digest is cut short.
    assert!(PeerId::from_bytes(&[0x12, 0x20, 1, 2]).is_none());
}

#[test]
fn peer_id_same_and_duplicate() {
    let a = PeerId::from_bytes(&sha256_peer_bytes(1)).unwrap();
    let b = PeerId::from_bytes(&sha256_peer_bytes(2)).unwrap();
    assert!(a.same(&a.duplicate()));
    assert!(!a.same(&b));
    assert_eq!(a.clone(), a);
}

#[test]
fn peer_id_is_held_as_libp2p_writes_it() {
    // The code 0x12 written on ten bytes, the last one carrying a bit that does not fit in 64.
    let mut long = vec![0x92, 0x80, 0x80, 0x80, 0x80, 0x80, 0x80, 0x80, 0x80, 0x02, 0x20];
    long.extend(std::iter::repeat(7).take(32));
    let p = PeerId::from_bytes(&long).expect("libp2p reads the code as 0x12");
    assert_eq!(p.to_bytes(), sha256_peer_bytes(7));
    assert_eq!(p, PeerId::from_bytes(&sha256_peer_bytes(7)).unwrap());
}
