use visor_md::recovery::{
    is_session_file_name, is_stale_session, latest_session, session_file_name, SessionCandidate,
    PRIVACY_NOTICE_FILE, RETENTION_SECS,
};

#[test]
fn el_marcador_de_privacidad_no_parece_una_recuperacion() {
    assert!(!is_session_file_name(PRIVACY_NOTICE_FILE));
    assert!(is_session_file_name("session-42-99.md"));
}

#[test]
fn el_nombre_de_sesion_se_reconoce() {
    let name = session_file_name(42, 99);
    assert_eq!(name, "session-42-99.md");
    assert!(is_session_file_name(&name));
    assert_eq!(session_file_name(0, 1_700_000_000_000_000_000), "session-0-1700000000000000000.md");
}

#[test]
fn la_limpieza_solo_elimina_sesiones_antiguas_normales() {
    let old = Some((RETENTION_SECS + 1, 0));
    assert!(is_stale_session("session-old.md", true, false, old));
    assert!(!is_stale_session(PRIVACY_NOTICE_FILE, true, false, old));
    assert!(!is_stale_session("session-old.md", true, true, old));
    assert!(!is_stale_session("session-old.md", false, false, old));
    assert!(!is_stale_session("session-old.md", true, false, Some((RETENTION_SECS, 0))));
    assert!(is_stale_session("session-old.md", true, false, Some((RETENTION_SECS, 1))));
    assert!(!is_stale_session("session-old.md", true, false, None));
}

#[test]
fn se_restaura_la_sesion_mas_reciente_dentro_del_limite() {
    let c = |name: &str, is_file: bool, len: u64, modified: Option<u128>| SessionCandidate {
        name: name.to_string(),
        is_file,
        byte_len: len,
        modified,
    };
    let candidates = vec![
        c("session-1.md", true, 10, Some(5)),
        c("session-2.md", true, 10, Some(9)),
        c("otro.md", true, 10, Some(20)),
        c("session-3.md", true, 500, Some(30)),
        c("session-4.md", false, 10, Some(40)),
        c("session-5.md", true, 10, Some(9)),
    ];
    assert_eq!(latest_session(&candidates, 100), Some(5));
    assert_eq!(latest_session(&candidates[..2], 100), Some(1));
    assert_eq!(latest_session(&candidates[2..5], 100), None);
}
