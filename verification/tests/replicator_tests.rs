//! The replication codec, exercised on the wire shapes the proxies send.

use undermoon::replicator::{
    encode_repl_meta, parse_repl_meta, Array, BulkStr, DBMapFlags, Resp,
};

#[test]
fn test_parse_and_encode_single_replicator() {
    let arguments =
        "UMCTL SETREPL 233 force master testdb localhost:6000 1 localhost:6001 localhost:5299"
            .split(' ')
            .map(|s| Resp::Bulk(BulkStr::Str(s.to_string().into_bytes())))
            .collect();
    let resp = Resp::Arr(Array::Arr(arguments));
    let r = parse_repl_meta(&resp);
    assert!(r.is_ok());
    let meta = r.expect("not success");
    assert_eq!(meta.epoch, 233);
    assert_eq!(meta.flags, DBMapFlags { force: true });
    assert_eq!(meta.masters.len(), 1);
    assert_eq!(meta.replicas.len(), 0);

    let args = encode_repl_meta(meta.clone()).join(" ");
    assert_eq!(
        args,
        "233 FORCE master testdb localhost:6000 1 localhost:6001 localhost:5299"
    );
}

#[test]
fn test_parse_and_encode_multi_replicators() {
    let arguments = "UMCTL SETREPL 233 noflag master testdb localhost:6000 1 localhost:6001 localhost:5299 replica testdb localhost:6001 1 localhost:6000 localhost:5299"
        .split(' ')
        .map(|s| Resp::Bulk(BulkStr::Str(s.to_string().into_bytes())))
        .collect();
    let resp = Resp::Arr(Array::Arr(arguments));
    let r = parse_repl_meta(&resp);
    assert!(r.is_ok());
    let meta = r.expect("not success");
    assert_eq!(meta.epoch, 233);
    assert_eq!(meta.flags, DBMapFlags { force: false });
    assert_eq!(meta.masters.len(), 1);
    assert_eq!(meta.replicas.len(), 1);

    let master = &meta.masters[0];
    assert_eq!(master.db_name, "testdb");
    assert_eq!(master.master_node_address, "localhost:6000");
    assert_eq!(master.replicas.len(), 1);
    assert_eq!(master.replicas[0].node_address, "localhost:6001");
    assert_eq!(master.replicas[0].proxy_address, "localhost:5299");

    let replica = &meta.replicas[0];
    assert_eq!(replica.db_name, "testdb");
    assert_eq!(replica.replica_node_address, "localhost:6001");
    assert_eq!(replica.masters.len(), 1);
    assert_eq!(replica.masters[0].node_address, "localhost:6000");
    assert_eq!(replica.masters[0].proxy_address, "localhost:5299");

    let args = encode_repl_meta(meta.clone()).join(" ");
    assert_eq!(args, "233 NOFLAG master testdb localhost:6000 1 localhost:6001 localhost:5299 replica testdb localhost:6001 1 localhost:6000 localhost:5299")
}

#[test]
fn parse_rejects_bad_role() {
    let arguments = "UMCTL SETREPL 7 noflag follower db localhost:6000 0"
        .split(' ')
        .map(|s| Resp::Bulk(BulkStr::Str(s.to_string().into_bytes())))
        .collect();
    let resp = Resp::Arr(Array::Arr(arguments));
    assert!(parse_repl_meta(&resp).is_err());
}

#[test]
fn parse_rejects_bad_epoch() {
    let arguments = "UMCTL SETREPL banana noflag"
        .split(' ')
        .map(|s| Resp::Bulk(BulkStr::Str(s.to_string().into_bytes())))
        .collect();
    let resp = Resp::Arr(Array::Arr(arguments));
    assert!(parse_repl_meta(&resp).is_err());
}

#[test]
fn parse_rejects_non_array() {
    let resp = Resp::Bulk(BulkStr::Str(b"233".to_vec()));
    assert!(parse_repl_meta(&resp).is_err());
}

#[test]
fn parse_skips_invalid_utf8_entries() {
    // An invalid UTF-8 bulk entry disappears from the argument list, so
    // the rest still parses; a decoder that handed bytes back unchanged
    // could not produce these strings.
    let mut arguments: Vec<Resp> = "UMCTL SETREPL 9 force"
        .split(' ')
        .map(|s| Resp::Bulk(BulkStr::Str(s.to_string().into_bytes())))
        .collect();
    arguments.insert(2, Resp::Bulk(BulkStr::Str(vec![0xff, 0xfe])));
    let resp = Resp::Arr(Array::Arr(arguments));
    let meta = parse_repl_meta(&resp).expect("should parse");
    assert_eq!(meta.epoch, 9);
    assert!(meta.flags.force);
}

#[test]
fn decimal_codec_exact_values() {
    assert_eq!(undermoon::strfmt::u64_to_dec(0), "0");
    assert_eq!(undermoon::strfmt::u64_to_dec(16384), "16384");
    assert_eq!(undermoon::strfmt::u64_to_dec(u64::MAX), "18446744073709551615");
    assert_eq!(undermoon::strfmt::parse_u64_dec("233"), Some(233));
    assert_eq!(undermoon::strfmt::parse_u64_dec(""), None);
    assert_eq!(undermoon::strfmt::parse_u64_dec("12a"), None);
    assert_eq!(undermoon::strfmt::parse_u64_dec("18446744073709551616"), None);
}
