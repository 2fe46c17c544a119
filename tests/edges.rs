use resp::Value::{Array, BulkString, Error, Integer, Nil, Status};
use resp::{array, bulk_string, error, integer, status, value, Decoded};

#[test]
fn empty_buffer_is_incomplete_everywhere() {
    assert!(array(b"").is_incomplete());
    assert!(bulk_string(b"").is_incomplete());
    assert!(status(b"").is_incomplete());
    assert!(error(b"").is_incomplete());
    assert!(integer(b"").is_incomplete());
    assert!(value(b"").is_incomplete());
}

#[test]
fn every_strict_prefix_is_incomplete() {
    let encodings: [&[u8]; 6] = [
        b":-1000\r\n",
        b"+OK\r\n",
        b"-Error message\r\n",
        b"$3\r\nfoo\r\n",
        b"$-1\r\n",
        b"*3\r\n:12\r\n$-1\r\n$4\r\nab\r\n\r\n",
    ];
    for e in encodings.iter() {
        for p in 0..e.len() {
            let prefix = &e[..p];
            let r = match e[0] {
                b':' => integer(prefix),
                b'+' => status(prefix),
                b'-' => error(prefix),
                b'$' => bulk_string(prefix),
                _ => array(prefix),
            };
            assert!(r.is_incomplete(), "prefix {} of {:?}", p, e);
        }
    }
}

#[test]
fn remainder_is_handed_back() {
    assert_eq!(Decoded::Done(&b":7\r\n"[..], Integer(5)), integer(b":5\r\n:7\r\n"));
    assert_eq!(Decoded::Done(&b"xyz"[..], Status("A".to_owned())), status(b"+A\r\nxyz"));
}

#[test]
fn sequential_decodes_give_values_in_order() {
    let mut buf: &[u8] = b":1\r\n$2\r\nhi\r\n$-1\r\n:-3\r\n";
    let mut seen = Vec::new();
    for _ in 0..4 {
        match value(buf) {
            Decoded::Done(rest, v) => {
                seen.push(v);
                buf = rest;
            }
            other => panic!("unexpected {:?}", other),
        }
    }
    assert!(buf.is_empty());
    assert_eq!(seen, vec![Integer(1), BulkString(b"hi".to_vec()), Nil, Integer(-3)]);
}

#[test]
fn integer_limits() {
    assert_eq!(
        Decoded::Done(&b""[..], Integer(i64::MAX)),
        integer(b":9223372036854775807\r\n")
    );
    assert_eq!(
        Decoded::Done(&b""[..], Integer(i64::MIN)),
        integer(b":-9223372036854775808\r\n")
    );
    assert!(integer(b":9223372036854775808\r\n").is_err());
    assert!(integer(b":-9223372036854775809\r\n").is_err());
    assert!(integer(b":99999999999999999999").is_err());
    assert_eq!(Decoded::Done(&b""[..], Integer(7)), integer(b":007\r\n"));
}

#[test]
fn integer_malformed_inputs() {
    assert!(integer(b":-\r\n").is_err());
    assert!(integer(b":+5\r\n").is_err());
    assert!(integer(b":12x\r\n").is_err());
    assert!(integer(b":12\n").is_err());
    assert!(integer(b":12\rx").is_err());
    assert!(integer(b"$3\r\n").is_err());
}

#[test]
fn bulk_payload_may_hold_terminators() {
    assert_eq!(
        Decoded::Done(&b""[..], BulkString(b"a\r\nb".to_vec())),
        bulk_string(b"$4\r\na\r\nb\r\n")
    );
    assert_eq!(
        Decoded::Done(&b""[..], BulkString(vec![0, 255, 13])),
        bulk_string(b"$3\r\n\x00\xff\r\r\n")
    );
}

#[test]
fn bulk_malformed_inputs() {
    assert!(bulk_string(b"$-10\r\n").is_err());
    assert!(bulk_string(b"$-2").is_err());
    assert!(bulk_string(b"$blabla\r\n").is_err());
    assert!(bulk_string(b"$3\r\nfooX\r\n").is_err());
    assert!(bulk_string(b"$3\r\nfoo\rX").is_err());
    assert!(bulk_string(b"$99999999999999999999\r\n").is_err());
    assert!(bulk_string(b"+OK\r\n").is_err());
}

#[test]
fn bulk_incomplete_inputs() {
    assert!(bulk_string(b"$-").is_incomplete());
    assert!(bulk_string(b"$-1\r").is_incomplete());
    assert!(bulk_string(b"$2000000000\r\n").is_incomplete());
    assert!(bulk_string(b"$9223372036854775807\r\n").is_incomplete());
    assert!(bulk_string(b"$9223372036854775808\r\n").is_incomplete());
    assert!(bulk_string(&format!("${}\r\n", usize::MAX).into_bytes()).is_incomplete());
    assert!(bulk_string(b"$3\r\nfoo").is_incomplete());
    assert!(bulk_string(b"$3\r\nfoo\r").is_incomplete());
}

#[test]
fn text_lines() {
    assert_eq!(Decoded::Done(&b""[..], Status("".to_owned())), status(b"+\r\n"));
    assert_eq!(Decoded::Done(&b""[..], Status("a\rb\nc".to_owned())), status(b"+a\rb\nc\r\n"));
    assert_eq!(Decoded::Done(&b""[..], Status("héllo".to_owned())), status("+héllo\r\n".as_bytes()));
    assert_eq!(Decoded::Done(&b""[..], Error("ERR x".to_owned())), error(b"-ERR x\r\n"));
    assert!(status(b"+\xff\xfe\r\n").is_err());
    assert!(status(b"-OK\r\n").is_err());
    assert!(error(b"+OK\r\n").is_err());
    assert!(status(b"+OK\n").is_incomplete());
}

#[test]
fn arrays() {
    assert_eq!(Decoded::Done(&b""[..], Array(vec![])), array(b"*0\r\n"));
    assert!(array(b"*-10\r\n").is_err());
    assert!(array(b"*-1\r").is_incomplete());
    assert!(array(b"*9223372036854775808\r\n").is_incomplete());
    assert!(array(b"*99999999999999999999\r\n").is_err());
    assert!(array(b"*2\r\n:1\r\n").is_incomplete());
    assert!(array(b"*2\r\n:1\r\n*1\r\n:2\r\n").is_err());
    assert!(array(b"*2\r\n:1\r\n+OK\r\n").is_err());
    assert_eq!(
        Decoded::Done(&b"+OK\r\n"[..], Array(vec![Integer(-5)])),
        array(b"*1\r\n:-5\r\n+OK\r\n")
    );
}

#[test]
fn outcome_queries() {
    let r = integer(b":1\r\n");
    assert!(r.is_done() && !r.is_err() && !r.is_incomplete());
    let r = integer(b":");
    assert!(!r.is_done() && !r.is_err() && r.is_incomplete());
    let r = integer(b"x");
    assert!(!r.is_done() && r.is_err() && !r.is_incomplete());
}

#[test]
fn numbers_may_have_leading_zeros() {
    assert_eq!(Decoded::Done(&b""[..], Integer(0)), integer(b":-0\r\n"));
    assert_eq!(Decoded::Done(&b""[..], Integer(-12)), integer(b":-0012\r\n"));
    assert_eq!(Decoded::Done(&b""[..], BulkString(b"foo".to_vec())), bulk_string(b"$003\r\nfoo\r\n"));
    assert_eq!(
        Decoded::Done(&b""[..], Array(vec![Integer(1), Nil])),
        array(b"*02\r\n:1\r\n$-1\r\n")
    );
    assert!(integer(b":00000000000000000000000000001").is_incomplete());
}
