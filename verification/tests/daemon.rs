use sirius::consts::BuildStatus;
use sirius::de::Deserializer;
use sirius::error::Error;
use sirius::protocol::Op;
use sirius::sandbox::build_env;
use sirius::sandbox::bwrap_args;
use sirius::sandbox::u64_to_dec;
use sirius::server::op_served;
use sirius::server::ConnState;
use sirius::server::ServerConn;
use sirius::store::scan_references;
use sirius::store::sort_strings;
use sirius::store::to_hex;
use sirius::store::StoreIndex;
use sirius::types::BasicDerivation;
use sirius::types::ClientSettings;
use sirius::types::DerivationOutput;
use sirius::types::PathInfo;
use sirius::types::PathInfoWithoutPath;

fn le(v: u64) -> Vec<u8> {
    v.to_le_bytes().to_vec()
}

fn sample_info(path: &str) -> PathInfo {
    PathInfo {
        path: path.to_string(),
        info: PathInfoWithoutPath {
            deriver: String::new(),
            hash: "00".repeat(32),
            references: Vec::new(),
            registration_time: 0,
            nar_size: 8,
            ultimate: true,
            sigs: Vec::new(),
            ca: String::new(),
        },
    }
}

#[test]
fn handshake_happy_path() {
    let mut conn = ServerConn::new();
    let greeting = conn.handshake_magic(0x6e697863).unwrap();
    let mut expected = le(0x6478696f);
    expected.extend_from_slice(&le(0x122));
    assert_eq!(expected, greeting);
    let done = conn.handshake_version(0x122, 0, false).unwrap();
    assert_eq!(le(0x616c7473), done);
    assert_eq!(ConnState::Ready, conn.state);
}

#[test]
fn handshake_bad_magic() {
    let mut conn = ServerConn::new();
    let r = conn.handshake_magic(0x00000000);
    assert!(matches!(r, Err(Error::ProtocolMagic)));
    assert_eq!(ConnState::Closed, conn.state);
}

#[test]
fn handshake_old_minor_version() {
    let mut conn = ServerConn::new();
    conn.handshake_magic(0x6e697863).unwrap();
    let r = conn.handshake_version(0x120, 0, false);
    assert!(matches!(r, Err(Error::ProtocolVersion)));
    assert_eq!(ConnState::Closed, conn.state);
}

#[test]
fn dispatch_supported_and_not() {
    let mut conn = ServerConn::new();
    conn.handshake_magic(0x6e697863).unwrap();
    conn.handshake_version(0x122, 0, false).unwrap();
    assert_eq!(Op::QueryPathInfo, conn.dispatch(26).unwrap());
    assert!(op_served(Op::Nop));
    assert!(!op_served(Op::CollectGarbage));
    assert!(matches!(conn.dispatch(20), Err(Error::Unsupported)));
    assert_eq!(ConnState::Closed, conn.state);
}

fn ready_conn() -> ServerConn {
    let mut conn = ServerConn::new();
    conn.handshake_magic(0x6e697863).unwrap();
    conn.handshake_version(0x122, 0, false).unwrap();
    conn
}

#[test]
fn query_path_info_miss() {
    let conn = ready_conn();
    let store = StoreIndex::new();
    let reply = conn.handle_query_path_info(&store, &"/nix/store/xxx-a".to_string());
    let mut expected = le(0x616c7473);
    expected.extend_from_slice(&le(0));
    assert_eq!(expected, reply);
}

#[test]
fn query_path_info_hit() {
    let conn = ready_conn();
    let mut store = StoreIndex::new();
    store.insert(sample_info("/nix/store/aaa-x"));
    let reply = conn.handle_query_path_info(&store, &"/nix/store/aaa-x".to_string());
    let mut de = Deserializer::new(reply);
    assert_eq!(0x616c7473, de.parse_u64().unwrap());
    assert_eq!(true, de.parse_bool().unwrap());
    let info = PathInfoWithoutPath::decode(&mut de).unwrap();
    assert_eq!(sample_info("/nix/store/aaa-x").info, info);
    assert_eq!(0, de.remaining());
}

#[test]
fn query_valid_paths_subset() {
    let conn = ready_conn();
    let mut store = StoreIndex::new();
    store.insert(sample_info("A"));
    store.insert(sample_info("B"));
    let candidates = vec!["A".to_string(), "C".to_string()];
    let reply = conn.handle_query_valid_paths(&store, &candidates, false);
    let mut de = Deserializer::new(reply);
    assert_eq!(0x616c7473, de.parse_u64().unwrap());
    assert_eq!(vec!["A".to_string()], de.parse_string_seq().unwrap());
    assert_eq!(0, de.remaining());
}

#[test]
fn set_options_kept() {
    let mut conn = ready_conn();
    let mut settings = ClientSettings::initial();
    settings.build_cores = 4;
    let reply = conn.handle_set_options(settings);
    assert_eq!(le(0x616c7473), reply);
    assert_eq!(4, conn.settings.build_cores);
}

#[test]
fn ingest_entry_success_and_failure() {
    let conn = ready_conn();
    let mut store = StoreIndex::new();
    conn.ingest_entry(&mut store, sample_info("/nix/store/abc-p"), true)
        .unwrap();
    assert!(store.lookup(&"/nix/store/abc-p".to_string()).is_some());
    let r = conn.ingest_entry(&mut store, sample_info("/nix/store/def-q"), false);
    assert!(matches!(r, Err(Error::StoreIO)));
    assert!(store.lookup(&"/nix/store/def-q".to_string()).is_none());
    assert_eq!(le(0x616c7473), conn.ingest_done());
}

#[test]
fn build_success_registers_output() {
    let conn = ready_conn();
    let mut store = StoreIndex::new();
    let path = "/nix/store/hhhhhhhhhhhhhhhhhhhhhhhhhhhhhhhh-o".to_string();
    let archive = b"hi\n".to_vec();
    let outputs = vec![(path.clone(), archive)];
    let (status, reply) = conn.build_finish(&mut store, true, &outputs, &Vec::new());
    assert_eq!(BuildStatus::Built, status);
    let entry = store.lookup(&path).unwrap().clone();
    assert!(entry.info.nar_size > 0);
    assert_eq!(3, entry.info.nar_size);
    assert!(entry.info.references.is_empty());
    assert!(entry.info.ultimate);
    assert!(entry.info.sigs.is_empty());
    assert_eq!(64, entry.info.hash.len());
    let mut de = Deserializer::new(reply);
    assert_eq!(0x616c7473, de.parse_u64().unwrap());
    assert_eq!(0, de.parse_u64().unwrap());
    assert_eq!("built", de.parse_string().unwrap());
    assert_eq!(0, de.parse_u64().unwrap());
    assert_eq!(0, de.parse_u64().unwrap());
    assert_eq!(0, de.parse_u64().unwrap());
    assert_eq!(0, de.parse_u64().unwrap());
    assert_eq!(0, de.parse_u64().unwrap());
    assert_eq!(0, de.remaining());
}

#[test]
fn build_failure_leaves_index_alone() {
    let conn = ready_conn();
    let mut store = StoreIndex::new();
    let path = "/nix/store/hhhhhhhhhhhhhhhhhhhhhhhhhhhhhhhh-o".to_string();
    let outputs = vec![(path.clone(), b"hi\n".to_vec())];
    let (status, reply) = conn.build_finish(&mut store, false, &outputs, &Vec::new());
    assert_eq!(BuildStatus::MiscFailure, status);
    assert!(store.lookup(&path).is_none());
    let mut de = Deserializer::new(reply);
    assert_eq!(0x616c7473, de.parse_u64().unwrap());
    assert_eq!(9, de.parse_u64().unwrap());
}

#[test]
fn nar_from_path_after_build() {
    let conn = ready_conn();
    let mut store = StoreIndex::new();
    let path = "/nix/store/hhhhhhhhhhhhhhhhhhhhhhhhhhhhhhhh-o".to_string();
    let outputs = vec![(path.clone(), b"hi\n".to_vec())];
    conn.build_finish(&mut store, true, &outputs, &Vec::new());
    let (known, bytes) = conn.handle_nar_from_path(&store, &path);
    assert!(known);
    assert_eq!(le(0x616c7473), bytes);
    let (unknown, _) = conn.handle_nar_from_path(&store, &"/nix/store/other".to_string());
    assert!(!unknown);
}

#[test]
fn sha256_of_empty_input() {
    let mut store = StoreIndex::new();
    store.register_output("/nix/store/e".to_string(), &Vec::new(), &Vec::new());
    let entry = store.lookup(&"/nix/store/e".to_string()).unwrap();
    assert_eq!(
        "e3b0c44298fc1c149afbf4c8996fb92427ae41e4649b934ca495991b7852b855",
        entry.info.hash
    );
    assert_eq!(0, entry.info.nar_size);
}

#[test]
fn reference_scan_finds_prefixes() {
    let present = "/nix/store/aaaaaaaaaaaaaaaaaaaaaaaaaaaaaaaa-dep".to_string();
    let absent = "/nix/store/bbbbbbbbbbbbbbbbbbbbbbbbbbbbbbbb-dep".to_string();
    let mut archive = b"some archive mentioning ".to_vec();
    archive.extend_from_slice(b"aaaaaaaaaaaaaaaaaaaaaaaaaaaaaaaa");
    archive.extend_from_slice(b" and nothing else");
    let srcs = vec![present.clone(), absent.clone()];
    let refs = scan_references(&archive, &srcs);
    assert_eq!(vec![present], refs);
}

#[test]
fn build_references_are_sorted() {
    let conn = ready_conn();
    let mut store = StoreIndex::new();
    let dep_b = "/nix/store/bbbbbbbbbbbbbbbbbbbbbbbbbbbbbbbb-x".to_string();
    let dep_a = "/nix/store/aaaaaaaaaaaaaaaaaaaaaaaaaaaaaaaa-y".to_string();
    let mut archive = Vec::new();
    archive.extend_from_slice(b"bbbbbbbbbbbbbbbbbbbbbbbbbbbbbbbb");
    archive.extend_from_slice(b"aaaaaaaaaaaaaaaaaaaaaaaaaaaaaaaa");
    let out = "/nix/store/cccccccccccccccccccccccccccccccc-o".to_string();
    let outputs = vec![(out.clone(), archive)];
    let srcs = vec![dep_b.clone(), dep_a.clone()];
    conn.build_finish(&mut store, true, &outputs, &srcs);
    let entry = store.lookup(&out).unwrap();
    assert_eq!(vec![dep_a, dep_b], entry.info.references);
}

#[test]
fn sort_strings_orders_bytewise() {
    let v = vec!["pear".to_string(), "apple".to_string(), "fig".to_string()];
    let sorted = sort_strings(&v);
    assert_eq!(
        vec!["apple".to_string(), "fig".to_string(), "pear".to_string()],
        sorted
    );
}

#[test]
fn to_hex_spells_bytes() {
    assert_eq!("00ff10", to_hex(&[0x00, 0xff, 0x10]));
    assert_eq!("", to_hex(&[]));
}

#[test]
fn u64_to_dec_spells_numbers() {
    assert_eq!("0", u64_to_dec(0));
    assert_eq!("7", u64_to_dec(7));
    assert_eq!("120", u64_to_dec(120));
    assert_eq!("18446744073709551615", u64_to_dec(u64::MAX));
}

fn sample_drv() -> BasicDerivation {
    BasicDerivation {
        name: "demo".to_string(),
        outputs: vec![DerivationOutput {
            name: "out".to_string(),
            path_s: "/nix/store/hhhhhhhhhhhhhhhhhhhhhhhhhhhhhhhh-o".to_string(),
            hash_algo: String::new(),
            hash: String::new(),
        }],
        input_srcs: vec!["/nix/store/iiiiiiiiiiiiiiiiiiiiiiiiiiiiiiii-in".to_string()],
        platform: "x86_64-linux".to_string(),
        builder: "/bin/sh".to_string(),
        args: vec!["-c".to_string(), "echo hi > $out".to_string()],
        env: vec![("X".to_string(), "1".to_string())],
    }
}

#[test]
fn build_env_layers() {
    let env = build_env(&sample_drv(), 12);
    assert_eq!(("PATH".to_string(), "/path-not-set".to_string()), env[0]);
    assert_eq!(
        ("NIX_BUILD_CORES".to_string(), "12".to_string()),
        env[3]
    );
    assert_eq!(("X".to_string(), "1".to_string()), env[9]);
    assert_eq!(
        (
            "out".to_string(),
            "/nix/store/hhhhhhhhhhhhhhhhhhhhhhhhhhhhhhhh-o".to_string()
        ),
        env[10]
    );
    assert_eq!(11, env.len());
}

#[test]
fn bwrap_args_layout() {
    let argv = bwrap_args(&sample_drv(), "/var/store", "/tmp/sandbox", "/bin/dash");
    assert_eq!("--unshare-all", argv[0]);
    assert_eq!("/tmp/sandbox", argv[3]);
    assert_eq!("/bin/dash", argv[14]);
    assert_eq!("--ro-bind", argv[16]);
    assert_eq!(
        "/var/store/nix/store/iiiiiiiiiiiiiiiiiiiiiiiiiiiiiiii-in",
        argv[17]
    );
    assert_eq!(
        "/nix/store/iiiiiiiiiiiiiiiiiiiiiiiiiiiiiiii-in",
        argv[18]
    );
    assert_eq!("/bin/sh", argv[19]);
    assert_eq!("-c", argv[20]);
    assert_eq!("echo hi > $out", argv[21]);
    assert_eq!(22, argv.len());
}

#[test]
fn insert_replaces_same_key() {
    let mut store = StoreIndex::new();
    let mut first = sample_info("/nix/store/same");
    first.info.nar_size = 1;
    let mut second = sample_info("/nix/store/same");
    second.info.nar_size = 2;
    store.insert(first);
    store.insert(second);
    let entry = store.lookup(&"/nix/store/same".to_string()).unwrap();
    assert_eq!(2, entry.info.nar_size);
    let candidates = vec!["/nix/store/same".to_string()];
    let subset = ready_conn().handle_query_valid_paths(&store, &candidates, false);
    let mut de = Deserializer::new(subset);
    de.parse_u64().unwrap();
    assert_eq!(1, de.parse_string_seq().unwrap().len());
}

#[test]
fn dispatch_unknown_tag() {
    let mut conn = ready_conn();
    assert!(matches!(conn.dispatch(99), Err(Error::Unsupported)));
    assert_eq!(ConnState::Closed, conn.state);
}
