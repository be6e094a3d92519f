use visor_md::settings::{
    document_key_of, parse_u32, DocumentModePreference, Settings, MAX_DOCUMENT_MODES,
};

#[test]
fn limita_el_historial_de_modos_sin_perder_los_mas_recientes() {
    let mut settings = Settings::default();
    for index in 0..(MAX_DOCUMENT_MODES + 8) {
        settings.remember_document_mode(
            &document_key_of(&format!("nota-{index}.md")),
            DocumentModePreference::Reading,
        );
    }

    assert_eq!(settings.document_modes.len(), MAX_DOCUMENT_MODES);
    assert_eq!(settings.document_mode(&document_key_of("nota-0.md")), None);
    assert_eq!(
        settings.document_mode(&document_key_of("nota-135.md")),
        Some(DocumentModePreference::Reading)
    );
}

#[test]
fn conserva_la_preferencia_sin_guardar_datos_del_documento() {
    let settings = Settings {
        recovery_enabled: false,
        document_modes: Vec::new(),
    };
    let stored = settings.render();
    assert_eq!(Settings::parse(&stored), settings);
    assert!(!stored.contains("path"));
}

#[test]
fn una_version_desconocida_vuelve_al_valor_seguro() {
    assert_eq!(
        Settings::parse("version=99\nrecovery_enabled=false\n"),
        Settings::default()
    );
}

#[test]
fn recuerda_modo_sin_persistir_ruta_ni_nombre() {
    let key = document_key_of("/tmp/apuntes privados/redes.md");
    let mut settings = Settings::default();
    settings.remember_document_mode(&key, DocumentModePreference::Split);
    let stored = settings.render();
    assert!(!stored.contains("apuntes privados"));
    assert!(!stored.contains("redes.md"));
    let loaded = Settings::parse(&stored);
    assert_eq!(loaded.document_mode(&key), Some(DocumentModePreference::Split));
}

#[test]
fn migra_version_uno_sin_perder_preferencia_de_recuperacion() {
    let loaded = Settings::parse("version=1\nrecovery_enabled=false\ndocument_mode=0123456789abcdef,r\n");
    assert!(!loaded.recovery_enabled);
    assert!(loaded.document_modes.is_empty());
}

#[test]
fn la_clave_de_documento_es_fnv1a_en_hexadecimal() {
    assert_eq!(document_key_of(""), "cbf29ce484222325");
    assert_eq!(document_key_of("a"), "af63dc4c8601ec8c");
    assert_eq!(document_key_of("C:\\x"), document_key_of("C:/x"));
}

#[test]
fn las_lineas_invalidas_se_ignoran() {
    let loaded = Settings::parse(
        "  version = +2 \nbasura\nrecovery_enabled=quizas\ndocument_mode=XYZ,r\ndocument_mode=abcdef0123456789,s\ndocument_mode=ABCDEF0123456789,e\n",
    );
    assert!(loaded.recovery_enabled);
    assert_eq!(
        loaded.document_modes,
        vec![
            ("abcdef0123456789".to_string(), DocumentModePreference::Split),
            ("abcdef0123456789".to_string(), DocumentModePreference::Editing)
        ]
    );
    assert_eq!(DocumentModePreference::parse("s"), Some(DocumentModePreference::Split));
    assert_eq!(DocumentModePreference::Editing.code(), "e");
}

#[test]
fn los_numeros_se_leen_como_u32() {
    assert_eq!(parse_u32("42"), Some(42));
    assert_eq!(parse_u32("+7"), Some(7));
    assert_eq!(parse_u32("4294967295"), Some(4294967295));
    assert_eq!(parse_u32("4294967296"), None);
    assert_eq!(parse_u32("-1"), None);
    assert_eq!(parse_u32("+"), None);
    assert_eq!(parse_u32(""), None);
    assert_eq!(parse_u32("1 "), None);
}
