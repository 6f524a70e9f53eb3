use packet_log::cursor::CursorPair;
use packet_log::store::{Packet, PacketStore};

#[test]
fn cursors_advance_independently() {
    let mut c = CursorPair::new();
    assert_eq!(c.next_read(), None);
    assert_eq!(c.next_write(), 0);
    assert_eq!(c.next_write(), 1);
    assert_eq!(c.next_read(), Some(0));
    assert_eq!(c.next_read(), Some(1));
    assert_eq!(c.next_read(), None);
    c.reset(5);
    assert_eq!(c.next_read(), None);
    assert_eq!(c.next_write(), 5);
}

#[test]
fn store_put_get_and_master() {
    let mut s = PacketStore::new();
    assert_eq!(s.len(), 0);
    assert!(s.get(0).is_none());
    let rows1 = vec![b"t,v".to_vec(), b"1,10".to_vec()];
    s.append_master(&rows1, false);
    s.put(0, Packet { rows: rows1 });
    let rows2 = vec![b"t,v".to_vec(), b"2,20".to_vec()];
    s.append_master(&rows2, true);
    s.put(1, Packet { rows: rows2 });
    assert_eq!(s.len(), 2);
    assert_eq!(s.get(1).unwrap().rows[1], b"2,20".to_vec());
    assert_eq!(s.master, b"t,v\n1,10\n2,20\n".to_vec());
    let payload = s.session_payload(0, 2).unwrap();
    assert_eq!(payload, b"t,v\n1,10\n2,20\n".to_vec());
    // a range past the stored packets is clamped, not an error
    assert_eq!(s.session_payload(1, 9).unwrap(), b"t,v\n2,20\n".to_vec());
    assert!(s.session_payload(2, 2).is_none());
    s.reset();
    assert_eq!(s.len(), 0);
    assert!(s.master.is_empty());
}
