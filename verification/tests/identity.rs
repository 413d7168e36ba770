use build_progress::cmd::{exit_code, CommandOptions};
use build_progress::hash::fnv1a_bytes;
use build_progress::output::{check_cmd, CmdCheck};

fn sample_cmd() -> CommandOptions {
    CommandOptions::new(
        vec![b"cc".to_vec(), b"-o".to_vec(), b"main".to_vec()],
        b"/work".to_vec(),
        vec![
            (b"CC".to_vec(), Some(b"clang".to_vec())),
            (b"MISSING".to_vec(), None),
            (b"LANG".to_vec(), Some(b"C".to_vec())),
        ],
    )
}

#[test]
fn fnv1a_known_vectors() {
    assert_eq!(fnv1a_bytes(&Vec::new()), 0xcbf29ce484222325);
    assert_eq!(fnv1a_bytes(&b"a".to_vec()), 0xaf63dc4c8601ec8c);
    assert_eq!(fnv1a_bytes(&b"foobar".to_vec()), 0x85944171f73967e8);
}

#[test]
fn env_selection_keeps_present_keys_in_order() {
    let cmd = sample_cmd();
    assert_eq!(cmd.env.len(), 2);
    assert_eq!(cmd.env[0].0, b"CC".to_vec());
    assert_eq!(cmd.env[0].1, b"clang".to_vec());
    assert_eq!(cmd.env[1].0, b"LANG".to_vec());
    assert_eq!(cmd.env[1].1, b"C".to_vec());
}

#[test]
fn canonical_encoding_of_a_small_command() {
    let cmd = CommandOptions::new(
        vec![b"ls".to_vec()],
        b"/w".to_vec(),
        vec![(b"K".to_vec(), Some(b"V".to_vec()))],
    );
    assert_eq!(cmd.encode_cmd(), b"2:/w2:ls;1:K1:V".to_vec());
}

#[test]
fn fingerprint_is_stable_and_hex_shaped() {
    let h1 = sample_cmd().hash();
    let h2 = sample_cmd().hash();
    assert_eq!(h1, h2);
    assert_eq!(h1.len(), 16);
    assert!(h1.chars().all(|c| c.is_ascii_hexdigit() && !c.is_ascii_uppercase()));
}

#[test]
fn fingerprint_depends_on_the_inputs() {
    let base = sample_cmd().hash();
    let other_args = CommandOptions::new(
        vec![b"cc".to_vec(), b"-o".to_vec(), b"other".to_vec()],
        b"/work".to_vec(),
        vec![(b"CC".to_vec(), Some(b"clang".to_vec())), (b"LANG".to_vec(), Some(b"C".to_vec()))],
    );
    let other_dir = CommandOptions::new(
        vec![b"cc".to_vec(), b"-o".to_vec(), b"main".to_vec()],
        b"/elsewhere".to_vec(),
        vec![(b"CC".to_vec(), Some(b"clang".to_vec())), (b"LANG".to_vec(), Some(b"C".to_vec()))],
    );
    assert_ne!(base, other_args.hash());
    assert_ne!(base, other_dir.hash());
}

#[test]
fn missing_side_file_is_written_with_the_canonical_spec() {
    let cmd = sample_cmd();
    match check_cmd(None, &cmd) {
        CmdCheck::WriteNew(bytes) => assert_eq!(bytes, cmd.encode_cmd()),
        _ => panic!("a missing side file must be written"),
    }
}

#[test]
fn matching_side_file_is_accepted() {
    let cmd = sample_cmd();
    let stored = cmd.encode_cmd();
    assert!(matches!(check_cmd(Some(&stored), &cmd), CmdCheck::Matches));
}

#[test]
fn different_stored_spec_is_a_collision() {
    let cmd = sample_cmd();
    let stored = b"2:/w2:ls;".to_vec();
    assert!(matches!(check_cmd(Some(&stored), &cmd), CmdCheck::Collision));
}

#[test]
fn exit_code_mirrors_the_child() {
    assert_eq!(exit_code(Some(0)), 0);
    assert_eq!(exit_code(Some(3)), 3);
    assert_eq!(exit_code(None), 1);
}
