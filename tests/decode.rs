use resp::Value::{Array, BulkString, Error, Integer, Nil, Status};
use resp::{array, bulk_string, error, integer, status, Decoded};

#[test]
fn parse_array() {
    let data = b"*2\r\n$3\r\nfoo\r\n$3\r\nbar\r\n";

    assert_eq!(
        Decoded::Done(
            &b""[..],
            Array(vec![BulkString(b"foo".to_vec()), BulkString(b"bar".to_vec())])
        ),
        array(data)
    );
}

#[test]
fn parse_integer() {
    assert_eq!(Decoded::Done(&b""[..], Integer(0)), integer(b":0\r\n"));
    assert_eq!(Decoded::Done(&b""[..], Integer(-1000)), integer(b":-1000\r\n"));
}

#[test]
fn parse_status() {
    assert_eq!(Decoded::Done(&b""[..], Status("OK".to_owned())), status(b"+OK\r\n"));
}

#[test]
fn parse_error() {
    assert_eq!(
        Decoded::Done(&b""[..], Error("Error message".to_owned())),
        error(b"-Error message\r\n")
    );
}

#[test]
fn parse_bulk_string() {
    assert_eq!(Decoded::Done(&b""[..], BulkString(b"foo".to_vec())), bulk_string(b"$3\r\nfoo\r\n"));
    assert_eq!(Decoded::Done(&b""[..], BulkString(b"".to_vec())), bulk_string(b"$0\r\n\r\n"));
    assert_eq!(Decoded::Done(&b""[..], Nil), bulk_string(b"$-1\r\n"));
}

#[test]
fn parse_mixed_array() {
    let data = b"*5\r\n:1\r\n:2\r\n:3\r\n:4\r\n$6\r\nfoobar\r\n";
    assert_eq!(
        Decoded::Done(
            &b""[..],
            Array(vec![
                Integer(1),
                Integer(2),
                Integer(3),
                Integer(4),
                BulkString(b"foobar".to_vec()),
            ])
        ),
        array(data)
    );

    let data = b"*3\r\n$3\r\nfoo\r\n$-1\r\n$3\r\nbar\r\n";
    assert_eq!(
        Decoded::Done(
            &b""[..],
            Array(vec![BulkString(b"foo".to_vec()), Nil, BulkString(b"bar".to_vec())])
        ),
        array(data)
    );
}

#[test]
fn parse_null_array() {
    assert_eq!(Decoded::Done(&b""[..], Nil), array(b"*-1\r\n"));
}
