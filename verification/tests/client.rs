use sirius::client::Client;
use sirius::client::ClientError;
use sirius::de::Deserializer;
use sirius::ser::Serializer;
use sirius::types::PathInfo;
use sirius::types::PathInfoWithoutPath;

fn le(v: u64) -> Vec<u8> {
    v.to_le_bytes().to_vec()
}

fn write_string(out: &mut Vec<u8>, s: &str) {
    let b = s.as_bytes();
    out.extend_from_slice(&le(b.len() as u64));
    out.extend_from_slice(b);
    let pad = (8 - b.len() % 8) % 8;
    out.extend_from_slice(&vec![0; pad]);
}

fn daemon_greeting() -> Vec<u8> {
    let mut out = Vec::new();
    out.extend_from_slice(&le(0x6478696f));
    out.extend_from_slice(&le(0x122));
    write_string(&mut out, "2.18.1");
    out.extend_from_slice(&le(0x616c7473));
    out
}

#[test]
fn client_handshake() {
    let client = Client::new(Serializer::new(), Deserializer::new(daemon_greeting())).unwrap();
    let mut expected = le(0x6e697863);
    expected.extend_from_slice(&le(0x122));
    expected.extend_from_slice(&le(0));
    expected.extend_from_slice(&le(0));
    assert_eq!(expected, client.w.buf);
}

#[test]
fn client_rejects_bad_magic() {
    let mut greeting = daemon_greeting();
    greeting[0] = 0x00;
    let r = Client::new(Serializer::new(), Deserializer::new(greeting));
    assert!(matches!(r, Err(ClientError::Generic(_))));
}

#[test]
fn client_collects_stderr_writes() {
    let mut reply = daemon_greeting();
    reply.extend_from_slice(&le(0x64617416));
    write_string(&mut reply, "building...");
    reply.extend_from_slice(&le(0x616c7473));
    let mut client = Client::new(Serializer::new(), Deserializer::new(reply)).unwrap();
    client.process_stderr().unwrap();
    assert_eq!(vec!["building...".to_string()], client.logs);
}

#[test]
fn client_discards_other_stderr_messages() {
    let mut reply = daemon_greeting();
    // a log line: discarded
    reply.extend_from_slice(&le(0x6f6c6d67));
    write_string(&mut reply, "noise");
    // a read request: discarded
    reply.extend_from_slice(&le(0x64617461));
    reply.extend_from_slice(&le(512));
    // an activity starts: discarded, fields included
    reply.extend_from_slice(&le(0x53545254));
    reply.extend_from_slice(&le(1)); // activity id
    reply.extend_from_slice(&le(5)); // level
    reply.extend_from_slice(&le(100)); // type
    write_string(&mut reply, "building the thing");
    reply.extend_from_slice(&le(2)); // two fields
    reply.extend_from_slice(&le(0)); // an integer field
    reply.extend_from_slice(&le(7));
    reply.extend_from_slice(&le(1)); // a string field
    write_string(&mut reply, "f");
    reply.extend_from_slice(&le(0)); // parent
    // a write: kept
    reply.extend_from_slice(&le(0x64617416));
    write_string(&mut reply, "kept");
    // an activity result: discarded
    reply.extend_from_slice(&le(0x52534c54));
    reply.extend_from_slice(&le(1));
    reply.extend_from_slice(&le(101));
    reply.extend_from_slice(&le(0)); // no fields
    // the activity stops: discarded
    reply.extend_from_slice(&le(0x53544f50));
    reply.extend_from_slice(&le(1));
    // an error report: discarded
    reply.extend_from_slice(&le(0x63787470));
    write_string(&mut reply, "Error");
    reply.extend_from_slice(&le(0)); // level
    write_string(&mut reply, "Error");
    write_string(&mut reply, "something failed");
    reply.extend_from_slice(&le(0)); // no position
    reply.extend_from_slice(&le(1)); // one trace
    reply.extend_from_slice(&le(0)); // no position
    write_string(&mut reply, "while doing the thing");
    reply.extend_from_slice(&le(0x616c7473));
    let mut client = Client::new(Serializer::new(), Deserializer::new(reply)).unwrap();
    client.process_stderr().unwrap();
    assert_eq!(vec!["kept".to_string()], client.logs);
}

#[test]
fn client_refuses_unknown_stderr_tag() {
    let mut reply = daemon_greeting();
    reply.extend_from_slice(&le(0x12345678));
    reply.extend_from_slice(&le(0x616c7473));
    let mut client = Client::new(Serializer::new(), Deserializer::new(reply)).unwrap();
    let r = client.process_stderr();
    assert!(matches!(r, Err(ClientError::Serde(_))));
    assert!(client.logs.is_empty());
}

#[test]
fn client_query_path_info_round_trip() {
    let info = PathInfoWithoutPath {
        deriver: "/nix/store/ddd-drv".to_string(),
        hash: "aa".repeat(32),
        references: vec!["/nix/store/rrr-ref".to_string()],
        registration_time: 7,
        nar_size: 120,
        ultimate: true,
        sigs: vec!["cache:sig".to_string()],
        ca: String::new(),
    };
    let mut reply = daemon_greeting();
    reply.extend_from_slice(&le(0x616c7473));
    reply.extend_from_slice(&le(1));
    let mut ser = Serializer::new();
    info.encode(&mut ser);
    reply.extend_from_slice(&ser.into_bytes());
    let mut client = Client::new(Serializer::new(), Deserializer::new(reply)).unwrap();
    let v = client.query_path_info("/nix/store/qqq-pkg").unwrap();
    assert_eq!("/nix/store/qqq-pkg", v.path);
    assert_eq!(Some("/nix/store/ddd-drv".to_string()), v.deriver);
    assert_eq!(info.hash, v.hash);
    assert_eq!(info.references, v.references);
    assert_eq!(7, v.registration_time);
    assert_eq!(120, v.nar_size);
    assert!(v.ultimate);
    assert_eq!(info.sigs, v.sigs);
    assert_eq!(Some(String::new()), v.ca);
}

#[test]
fn client_query_path_info_miss_is_error() {
    let mut reply = daemon_greeting();
    reply.extend_from_slice(&le(0x616c7473));
    reply.extend_from_slice(&le(0));
    let mut client = Client::new(Serializer::new(), Deserializer::new(reply)).unwrap();
    let r = client.query_path_info("/nix/store/xxx-a");
    assert!(matches!(r, Err(ClientError::Generic(_))));
}

#[test]
fn path_info_record_round_trip() {
    let record = PathInfo {
        path: "/nix/store/abc-pkg".to_string(),
        info: PathInfoWithoutPath {
            deriver: String::new(),
            hash: "00".repeat(32),
            references: vec!["a".to_string(), "b".to_string()],
            registration_time: 1,
            nar_size: 2,
            ultimate: false,
            sigs: Vec::new(),
            ca: "fixed:sha256:xyz".to_string(),
        },
    };
    let mut ser = Serializer::new();
    record.encode(&mut ser);
    let mut de = Deserializer::new(ser.into_bytes());
    assert_eq!(record, PathInfo::decode(&mut de).unwrap());
    assert_eq!(0, de.remaining());
}
