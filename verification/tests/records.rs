use sirius::de::Deserializer;
use sirius::ser::Serializer;
use sirius::types::BasicDerivation;
use sirius::types::ClientSettings;
use sirius::types::DerivationOutput;

fn le(v: u64) -> Vec<u8> {
    v.to_le_bytes().to_vec()
}

fn write_string(out: &mut Vec<u8>, s: &str) {
    let b = s.as_bytes();
    out.extend_from_slice(&le(b.len() as u64));
    out.extend_from_slice(b);
    let pad = (8 - b.len() % 8) % 8;
    out.extend_from_slice(&vec![0; pad]);
}

#[test]
fn client_settings_decode() {
    let mut data = Vec::new();
    data.extend_from_slice(&le(1)); // keep_failed
    data.extend_from_slice(&le(0)); // keep_going
    data.extend_from_slice(&le(1)); // try_fallback
    data.extend_from_slice(&le(3)); // verbosity
    data.extend_from_slice(&le(8)); // max_build_jobs
    data.extend_from_slice(&le(900)); // max_silent_time
    data.extend_from_slice(&le(0)); // use_build_hook
    data.extend_from_slice(&le(0)); // verbose_build
    data.extend_from_slice(&le(0)); // log_type
    data.extend_from_slice(&le(0)); // print_build_trace
    data.extend_from_slice(&le(12)); // build_cores
    data.extend_from_slice(&le(1)); // use_subsitutes
    data.extend_from_slice(&le(1)); // one override pair
    write_string(&mut data, "sandbox");
    write_string(&mut data, "false");
    let mut de = Deserializer::new(data);
    let s = ClientSettings::decode(&mut de).unwrap();
    assert!(s.keep_failed);
    assert!(!s.keep_going);
    assert!(s.try_fallback);
    assert_eq!(3, s.verbosity);
    assert_eq!(8, s.max_build_jobs);
    assert_eq!(900, s.max_silent_time);
    assert_eq!(12, s.build_cores);
    assert!(s.use_subsitutes);
    assert_eq!(
        vec![("sandbox".to_string(), "false".to_string())],
        s.overrides
    );
    assert_eq!(0, de.remaining());
}

#[test]
fn basic_derivation_decode() {
    let mut data = Vec::new();
    write_string(&mut data, "demo"); // name
    data.extend_from_slice(&le(1)); // one output
    write_string(&mut data, "out");
    write_string(&mut data, "/nix/store/hhhhhhhhhhhhhhhhhhhhhhhhhhhhhhhh-o");
    write_string(&mut data, "");
    write_string(&mut data, "");
    data.extend_from_slice(&le(1)); // one input source
    write_string(&mut data, "/nix/store/iiiiiiiiiiiiiiiiiiiiiiiiiiiiiiii-in");
    write_string(&mut data, "x86_64-linux"); // platform
    write_string(&mut data, "/bin/sh"); // builder
    data.extend_from_slice(&le(2)); // two args
    write_string(&mut data, "-c");
    write_string(&mut data, "echo hi > $out");
    data.extend_from_slice(&le(1)); // one env pair
    write_string(&mut data, "X");
    write_string(&mut data, "1");
    let mut de = Deserializer::new(data);
    let drv = BasicDerivation::decode(&mut de).unwrap();
    let expected = BasicDerivation {
        name: "demo".to_string(),
        outputs: vec![DerivationOutput {
            name: "out".to_string(),
            path_s: "/nix/store/hhhhhhhhhhhhhhhhhhhhhhhhhhhhhhhh-o".to_string(),
            hash_algo: String::new(),
            hash: String::new(),
        }],
        input_srcs: vec!["/nix/store/iiiiiiiiiiiiiiiiiiiiiiiiiiiiiiii-in".to_string()],
        platform: "x86_64-linux".to_string(),
        builder: "/bin/sh".to_string(),
        args: vec!["-c".to_string(), "echo hi > $out".to_string()],
        env: vec![("X".to_string(), "1".to_string())],
    };
    assert_eq!(expected, drv);
    assert_eq!(0, de.remaining());
}

#[test]
fn truncated_derivation_is_refused() {
    let mut data = Vec::new();
    write_string(&mut data, "demo");
    data.extend_from_slice(&le(1));
    let mut de = Deserializer::new(data);
    assert!(BasicDerivation::decode(&mut de).is_err());
}
