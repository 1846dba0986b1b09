use nibble::common::{ErrorCode, ObjDesc};
use nibble::store::Nibble;

#[test]
fn nibble_single_small_object() {
    let mem: usize = 1 << 23;
    let mut nib = Nibble::new(mem);

    // insert initial object
    let key: &'static str = "keykeykeykey";
    let val: &'static str = "valuevaluevalue";
    let obj = ObjDesc::new(key.as_bytes().to_vec(), val.as_bytes().to_vec());
    match nib.put_object(&obj) {
        Ok(_) => {}
        Err(code) => panic!("{:?}", code),
    }

    // verify what we wrote is correct
    {
        let ret = nib.get_object(&key.as_bytes().to_vec());
        match ret {
            (Err(code), _) => panic!("key should exist: {:?}", code),
            (Ok(_), Some(buf)) => {
                let v: Vec<u8> = buf.bytes().clone();
                match String::from_utf8(v) {
                    Ok(string) => {
                        let mut compareto = String::new();
                        compareto.push_str(val);
                        assert_eq!(compareto, string);
                    }
                    Err(code) => {
                        panic!("error converting utf8 from log: {:?}", code);
                    }
                }
            }
            _ => panic!("unhandled return combo"),
        }
    }

    // shove in the object multiple times to cross many blocks
    let val2: &'static str = "VALUEVALUEVALUE";
    let obj2 = ObjDesc::new(key.as_bytes().to_vec(), val2.as_bytes().to_vec());
    for _i in 0..100000 {
        match nib.put_object(&obj2) {
            Ok(_) => {}
            Err(code) => panic!("{:?}", code),
        }
    }

    {
        let ret = nib.get_object(&key.as_bytes().to_vec());
        match ret {
            (Err(code), _) => panic!("key should exist: {:?}", code),
            (Ok(_), Some(buf)) => {
                let v: Vec<u8> = buf.bytes().clone();
                match String::from_utf8(v) {
                    Ok(string) => {
                        let mut compareto = String::new();
                        compareto.push_str(val2);
                        assert_eq!(compareto, string);
                    }
                    Err(code) => {
                        panic!("error converting utf8 from log: {:?}", code);
                    }
                }
            }
            _ => panic!("unhandled return combo"),
        }
    }

    assert_eq!(nib.test_count_live_objects(), 1);
}

#[test]
fn single_writer_wins_liveness() {
    let mut nib = Nibble::new(1 << 22);
    let k = b"winner".to_vec();
    for i in 1..=5u8 {
        let v = vec![i; 10];
        nib.put_object(&ObjDesc::new(k.clone(), v)).unwrap();
    }
    let (st, buf) = nib.get_object(&k);
    assert!(st.is_ok());
    assert_eq!(buf.unwrap().bytes(), &vec![5u8; 10]);
    assert_eq!(nib.test_count_live_objects(), 1);
}

#[test]
fn round_trip_exact_bytes() {
    let mut nib = Nibble::new(1 << 21);
    let k = b"some-key".to_vec();
    let v: Vec<u8> = (0u8..=255).collect();
    nib.put_object(&ObjDesc::new(k.clone(), v.clone())).unwrap();
    let (st, buf) = nib.get_object(&k);
    assert!(st.is_ok());
    let buf = buf.unwrap();
    assert_eq!(buf.getlen(), v.len());
    assert_eq!(buf.bytes(), &v);
}

#[test]
fn miss_contract_never_written() {
    let nib = Nibble::new(1 << 21);
    let (st, buf) = nib.get_object(&b"ghost".to_vec());
    assert_eq!(st.unwrap_err(), ErrorCode::KeyNotExist);
    assert!(buf.is_none());
}

#[test]
fn miss_contract_after_delete() {
    let mut nib = Nibble::new(1 << 21);
    let k = b"ephemeral".to_vec();
    nib.put_object(&ObjDesc::new(k.clone(), b"x".to_vec())).unwrap();
    assert_eq!(nib.del_object(&k).unwrap(), 1);
    let (st, buf) = nib.get_object(&k);
    assert_eq!(st.unwrap_err(), ErrorCode::KeyNotExist);
    assert!(buf.is_none());
    assert_eq!(nib.test_count_live_objects(), 0);
    // deleting again reports the miss
    assert_eq!(nib.del_object(&k).unwrap_err(), ErrorCode::KeyNotExist);
}

#[test]
fn invalidation_accounting() {
    let mut nib = Nibble::new(1 << 22);
    let k = b"accounting-key".to_vec();
    let v1 = vec![1u8; 100];
    let v2 = vec![2u8; 50];
    let size1 = 9 + k.len() + v1.len();
    let size2 = 9 + k.len() + v2.len();

    nib.put_object(&ObjDesc::new(k.clone(), v1.clone())).unwrap();
    assert_eq!(nib.manager.segments[0].live_objects, 1);
    assert_eq!(nib.manager.segments[0].live_bytes, size1);

    nib.put_object(&ObjDesc::new(k.clone(), v2.clone())).unwrap();
    // exactly one invalidation was booked against the segment holding
    // v1's entry: its live bytes dropped by size1 (and gained only the
    // new entry, which landed in the same segment)
    assert_eq!(nib.manager.segments[0].live_objects, 1);
    assert_eq!(nib.manager.segments[0].live_bytes, size1 + size2 - size1);
}

#[test]
fn allocator_exhaustion_single_segment() {
    // capacity of exactly one segment
    let mut nib = Nibble::new(1 << 20);
    let key = b"k".to_vec();
    let val = vec![7u8; 20];
    let mut puts: u32 = 0;
    loop {
        match nib.put_object(&ObjDesc::new(key.clone(), val.clone())) {
            Ok(_) => puts += 1,
            Err(code) => {
                assert_eq!(code, ErrorCode::OutOfSegments);
                break;
            }
        }
        assert!(puts < 100000);
    }
    assert!(puts >= 1);
    // nothing was corrupted: the last successful write is still there
    let (st, buf) = nib.get_object(&key);
    assert!(st.is_ok());
    assert_eq!(buf.unwrap().bytes(), &val);
    assert_eq!(nib.test_count_live_objects(), 1);
}

#[test]
fn encoding_error_oversized() {
    let mut nib = Nibble::new(1 << 21);
    // key over the limit
    let big_key = vec![0u8; 65536];
    let st = nib.put_object(&ObjDesc::new(big_key, b"v".to_vec()));
    assert_eq!(st.unwrap_err(), ErrorCode::EncodingError);
    // payload over the limit
    let big_val = vec![0u8; 524289];
    let st = nib.put_object(&ObjDesc::new(b"k".to_vec(), big_val));
    assert_eq!(st.unwrap_err(), ErrorCode::EncodingError);
    // nothing was stored
    assert_eq!(nib.test_count_live_objects(), 0);
}

#[test]
fn empty_payload_and_limits() {
    let mut nib = Nibble::new(1 << 21);
    let k = b"empty".to_vec();
    nib.put_object(&ObjDesc::new(k.clone(), Vec::new())).unwrap();
    let (st, buf) = nib.get_object(&k);
    assert!(st.is_ok());
    assert_eq!(buf.unwrap().getlen(), 0);
    // a key of the maximum admitted length still works
    let long_key = vec![9u8; 65535];
    nib.put_object(&ObjDesc::new(long_key.clone(), b"v".to_vec())).unwrap();
    let (st, buf) = nib.get_object(&long_key);
    assert!(st.is_ok());
    assert_eq!(buf.unwrap().bytes(), &b"v".to_vec());
}

#[test]
fn buffer_is_independent_copy() {
    let mut nib = Nibble::new(1 << 21);
    let k = b"copied".to_vec();
    let v1 = b"first".to_vec();
    nib.put_object(&ObjDesc::new(k.clone(), v1.clone())).unwrap();
    let (_, buf) = nib.get_object(&k);
    let buf = buf.unwrap();
    // overwriting the key does not disturb the buffer already returned
    nib.put_object(&ObjDesc::new(k.clone(), b"second".to_vec())).unwrap();
    assert_eq!(buf.bytes(), &v1);
    let (_, buf2) = nib.get_object(&k);
    assert_eq!(buf2.unwrap().bytes(), &b"second".to_vec());
}

#[test]
fn two_keys_coexist() {
    let mut nib = Nibble::new(1 << 21);
    let ka = b"alpha".to_vec();
    let kb = b"beta".to_vec();
    nib.put_object(&ObjDesc::new(ka.clone(), b"AAA".to_vec())).unwrap();
    nib.put_object(&ObjDesc::new(kb.clone(), b"BBB".to_vec())).unwrap();
    nib.put_object(&ObjDesc::new(ka.clone(), b"AAA2".to_vec())).unwrap();
    assert_eq!(nib.test_count_live_objects(), 2);
    let (_, a) = nib.get_object(&ka);
    assert_eq!(a.unwrap().bytes(), &b"AAA2".to_vec());
    let (_, b) = nib.get_object(&kb);
    assert_eq!(b.unwrap().bytes(), &b"BBB".to_vec());
    // deleting one leaves the other intact
    nib.del_object(&ka).unwrap();
    assert_eq!(nib.test_count_live_objects(), 1);
    let (_, b) = nib.get_object(&kb);
    assert_eq!(b.unwrap().bytes(), &b"BBB".to_vec());
}
