use ptycore::ids::session_id;
use ptycore::{resolve_shell, PtyError, PtyManager};

#[test]
fn session_id_has_uuid_then_serial() {
    let id = session_id(42);
    assert_eq!(id.len(), 39);
    assert_eq!(&id[36..], "-42");
    let dashes: Vec<usize> = id[..36]
        .char_indices()
        .filter(|(_, c)| *c == '-')
        .map(|(i, _)| i)
        .collect();
    assert_eq!(dashes, vec![8, 13, 18, 23]);
    assert!(id[..36].chars().all(|c| c == '-' || c.is_ascii_digit() || ('a'..='f').contains(&c)));
}

#[test]
fn ids_are_distinct_in_rapid_succession() {
    let mut m: PtyManager<u32> = PtyManager::new();
    let mut ids: Vec<String> = Vec::new();
    for n in 0..200u32 {
        ids.push(m.register(n, 80, 24).unwrap());
    }
    for i in 0..ids.len() {
        for j in (i + 1)..ids.len() {
            assert_ne!(ids[i], ids[j]);
        }
    }
    assert!(ids[0].ends_with("-0"));
    assert!(ids[199].ends_with("-199"));
}

#[test]
fn ids_are_not_reused_after_kill() {
    let mut m: PtyManager<u32> = PtyManager::new();
    let a = m.register(1, 80, 24).unwrap();
    assert_eq!(m.kill_pty(&a), Ok(1));
    let b = m.register(2, 80, 24).unwrap();
    assert_ne!(a, b);
    assert!(!m.is_live(&a));
    assert!(m.is_live(&b));
}

#[test]
fn write_to_unknown_id_is_not_found() {
    let mut m: PtyManager<Vec<u8>> = PtyManager::new();
    assert_eq!(m.write_to_pty("no-such-session").err(), Some(PtyError::NotFound));
    let id = m.register(Vec::new(), 80, 24).unwrap();
    let other = format!("{}x", id);
    assert_eq!(m.write_to_pty(&other).err(), Some(PtyError::NotFound));
}

#[test]
fn write_reaches_the_session_io() {
    let mut m: PtyManager<Vec<u8>> = PtyManager::new();
    let id = m.register(Vec::new(), 80, 24).unwrap();
    m.write_to_pty(&id).unwrap().extend_from_slice(b"ls\n");
    m.write_to_pty(&id).unwrap().extend_from_slice(b"pwd\n");
    assert_eq!(m.kill_pty(&id), Ok(b"ls\npwd\n".to_vec()));
}

#[test]
fn operations_after_kill_are_not_found() {
    let mut m: PtyManager<u8> = PtyManager::new();
    let id = m.register(7, 80, 24).unwrap();
    assert_eq!(m.kill_pty(&id), Ok(7));
    assert_eq!(m.write_to_pty(&id).err(), Some(PtyError::NotFound));
    assert_eq!(m.resize_pty(&id, 100, 30).err(), Some(PtyError::NotFound));
    assert_eq!(m.kill_pty(&id), Err(PtyError::NotFound));
}

#[test]
fn second_removal_finds_nothing() {
    let mut m: PtyManager<u8> = PtyManager::new();
    let id = m.register(3, 80, 24).unwrap();
    let keep = m.register(4, 80, 24).unwrap();
    assert_eq!(m.kill_pty(&id), Ok(3));
    assert_eq!(m.kill_pty(&id), Err(PtyError::NotFound));
    assert!(m.is_live(&keep));
}

#[test]
fn resize_records_the_new_size() {
    let mut m: PtyManager<u8> = PtyManager::new();
    let id = m.register(0, 80, 24).unwrap();
    assert_eq!(m.size_of(&id), Some((80, 24)));
    *m.resize_pty(&id, 132, 43).unwrap() = 9;
    assert_eq!(m.size_of(&id), Some((132, 43)));
    assert_eq!(m.kill_pty(&id), Ok(9));
    assert_eq!(m.size_of(&id), None);
}

#[test]
fn resize_to_zero_is_refused() {
    let mut m: PtyManager<u8> = PtyManager::new();
    let id = m.register(0, 80, 24).unwrap();
    assert_eq!(m.resize_pty(&id, 0, 24).err(), Some(PtyError::InvalidSize));
    assert_eq!(m.resize_pty(&id, 80, 0).err(), Some(PtyError::InvalidSize));
    assert_eq!(m.size_of(&id), Some((80, 24)));
    assert_eq!(m.resize_pty("unknown", 0, 0).err(), Some(PtyError::NotFound));
}

#[test]
fn shell_is_resolved_in_order() {
    assert_eq!(resolve_shell(Some("/bin/zsh".to_string()), Some("/bin/bash".to_string())), "/bin/zsh");
    assert_eq!(resolve_shell(None, Some("/bin/bash".to_string())), "/bin/bash");
    assert_eq!(resolve_shell(None, None), "/bin/sh");
}
