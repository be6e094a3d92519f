use visor_md::path_order::path_precedes;
use visor_md::workspace::{
    file_stem, headings_in, is_ignored_entry_name, is_markdown_path, lines, normalized_note_key,
    note_from_source, reused_note_with_content_limit, wikilinks_in, NoteAdmission, WikiLink,
    WikiResolution, WorkspaceIndex, WorkspaceLimits,
};

fn note(path: &str, source: &str) -> visor_md::workspace::WorkspaceNote {
    note_from_source(
        path.to_string(),
        source,
        source.len() as u64,
        None,
        usize::MAX,
    )
    .0
}

fn index_of(notes: Vec<visor_md::workspace::WorkspaceNote>) -> WorkspaceIndex {
    let mut index = WorkspaceIndex::default();
    for n in notes {
        index.add_note(n, 0, false);
    }
    index
}

#[test]
fn wikilinks_defectuosos_no_crean_destinos_vacios() {
    assert_eq!(wikilinks_in("[[ ]] [[abierta"), Vec::<WikiLink>::new());
}

#[test]
fn limita_el_texto_retenido_para_busqueda_sin_partir_unicode() {
    let (note, bytes, truncated) = note_from_source(
        "nota.md".to_string(),
        "áéí contenido importante",
        "áéí contenido importante".len() as u64,
        None,
        3,
    );

    assert_eq!(note.search_text, "á");
    assert_eq!(bytes, "á".len());
    assert!(truncated);
}

#[test]
fn extrae_titulos_enlaces_y_alias() {
    let n = note(
        "clases/redes.md",
        "# Redes\n\nVer [[seguridad|la guía]] y [[seguridad#Modelo]].\nClave: ciberseguridad interna.",
    );
    assert_eq!(n.title, "Redes");
    assert_eq!(n.wikilinks.len(), 2);
    assert_eq!(n.wikilinks[0].alias.as_deref(), Some("la guía"));
    assert_eq!(n.wikilinks[1].heading.as_deref(), Some("Modelo"));
    assert_eq!(n.wikilinks[1].note, "seguridad");
    let sin_titulo = note("carpeta/apunte.md", "texto sin encabezado");
    assert_eq!(sin_titulo.title, "apunte");
}

#[test]
fn los_encabezados_se_leen_por_linea() {
    let headings = headings_in("  ## Dos ##\r\n####### siete\n#sin espacio\n#\n# Uno");
    let texts: Vec<(String, u8)> = headings.into_iter().map(|h| (h.text, h.level)).collect();
    assert_eq!(
        texts,
        vec![
            ("Dos".to_string(), 2),
            ("sin espacio".to_string(), 1),
            ("Uno".to_string(), 1)
        ]
    );
}

#[test]
fn las_lineas_se_separan_como_en_str_lines() {
    assert_eq!(lines("a\r\nb\n\nc\r"), vec!["a", "b", "", "c\r"]);
    assert!(lines("").is_empty());
    assert_eq!(lines("x\n"), vec!["x"]);
}

#[test]
fn la_clave_de_nota_normaliza_rutas() {
    assert_eq!(normalized_note_key(" Carpeta\\Nota.MD#Sección"), "carpeta/nota");
    assert_eq!(normalized_note_key("a.md.md"), "a");
    assert_eq!(file_stem("a/b/c.tar.md"), Some("c.tar"));
    assert_eq!(file_stem(".oculto"), Some(".oculto"));
    assert_eq!(file_stem("a/.."), None);
    assert!(is_markdown_path("notas/Uno.MARKDOWN"));
    assert!(!is_markdown_path("notas/.md"));
    assert!(!is_markdown_path("imagen.png"));
    assert!(is_ignored_entry_name(".obsidian"));
    assert!(!is_ignored_entry_name("notas"));
}

#[test]
fn resuelve_wikilinks_y_bloquea_ambiguedades() {
    let index = index_of(vec![
        note("archivo/seguridad.md", "# Archivo"),
        note("clases/redes.md", "# Redes\n[[seguridad]] [[archivo/seguridad]]"),
        note("seguridad.md", "# Seguridad\n## Modelo"),
    ]);
    assert!(matches!(
        index.resolve_wikilink("seguridad"),
        WikiResolution::Ambiguous
    ));
    assert!(matches!(
        index.resolve_wikilink("archivo/seguridad"),
        WikiResolution::Found(n) if n.title == "Archivo"
    ));
    assert!(matches!(
        index.resolve_wikilink("redes#Tema"),
        WikiResolution::Found(n) if n.title == "Redes"
    ));
    assert!(matches!(
        index.resolve_wikilink("../secreto"),
        WikiResolution::Missing
    ));
    assert!(matches!(index.resolve_wikilink("  "), WikiResolution::Missing));
    let raiz = index.note_at_relative("seguridad.md").expect("la nota existe");
    assert!(index.backlinks_to(raiz).is_empty());
    let archivo = index.note_at_relative("archivo/seguridad.md").unwrap();
    assert_eq!(index.backlinks_to(archivo).len(), 1);
    assert!(index.note_at_relative("otra.md").is_none());
    assert_eq!(
        index.note_paths(),
        vec![
            "archivo/seguridad.md".to_string(),
            "clases/redes.md".to_string(),
            "seguridad.md".to_string()
        ]
    );
}

#[test]
fn la_busqueda_mira_titulo_ruta_encabezados_y_texto() {
    let index = index_of(vec![
        note("clases/redes.md", "# Redes\nClave: ciberseguridad interna."),
        note("seguridad.md", "# Seguridad\n## Modelo"),
    ]);
    assert_eq!(index.search("modelo").len(), 1);
    assert_eq!(index.search(" CIBERSEGURIDAD interna ").len(), 1);
    assert_eq!(index.search("clases").len(), 1);
    assert_eq!(index.search("seguridad").len(), 2);
    assert!(index.search("   ").is_empty());
}

#[test]
fn el_recorrido_respeta_sus_limites() {
    let limits = WorkspaceLimits {
        max_files: 1,
        max_note_bytes: 10,
        max_scanned_bytes: 15,
        max_indexed_content_bytes: 4,
    };
    let mut index = WorkspaceIndex::default();
    assert_eq!(index.admit_note_bytes(11, limits), NoteAdmission::Skip);
    assert_eq!(index.skipped, 1);
    assert_eq!(index.admit_note_bytes(10, limits), NoteAdmission::Read);
    assert_eq!(index.scanned_bytes, 10);
    assert_eq!(index.admit_note_bytes(6, limits), NoteAdmission::Stop);
    assert!(index.scan_truncated);
    assert_eq!(index.available_content(limits), 4);
    assert!(!index.reached_file_limit(limits));
    let (n, kept, cut) = note_from_source("a.md".to_string(), "abcdef", 6, None, index.available_content(limits));
    assert_eq!((kept, cut), (4, true));
    index.add_note(n, kept, cut);
    assert_eq!(index.available_content(limits), 0);
    assert!(index.content_truncated);
    assert!(index.reached_file_limit(limits));
    assert!(index.truncated);
    index.record_change_mark("", Some((3, None)), true);
    index.record_change_mark("a.md", None, false);
    let snapshot = index.change_snapshot();
    assert_eq!(snapshot.marks.len(), 1);
    assert_eq!(snapshot.marks[0].relative_path, ".");
    assert_eq!(WorkspaceLimits::default().max_files, 10_000);
}

#[test]
fn una_nota_intacta_se_reutiliza_bajo_el_presupuesto() {
    let original = note_from_source("n.md".to_string(), "áé texto", 10, Some(7), usize::MAX).0;
    assert!(original.is_unchanged(10, Some(7)));
    assert!(!original.is_unchanged(10, None));
    let (reused, kept, cut) = reused_note_with_content_limit(&original, 3);
    assert_eq!(reused.search_text, "á");
    assert_eq!(kept, 2);
    assert!(cut);
    assert_eq!(reused.title, original.title);
}

#[test]
fn las_notas_se_ordenan_por_componentes_de_ruta() {
    let mut index = index_of(vec![
        note("b.md", "# B"),
        note("a-c.md", "# AC"),
        note("a/z.md", "# AZ"),
        note("A.md", "# mayúscula"),
        note("a/b/c.md", "# ABC"),
    ]);
    index.skipped = 3;
    index.sort_notes();
    let paths: Vec<&str> = index.notes.iter().map(|n| n.relative_path.as_str()).collect();
    assert_eq!(paths, vec!["A.md", "a/b/c.md", "a/z.md", "a-c.md", "b.md"]);
    assert_eq!(index.skipped, 3);
    assert_eq!(index.notes[4].title, "B");
    let mut esperado: Vec<&std::path::Path> = paths.iter().map(|p| std::path::Path::new(*p)).collect();
    esperado.sort();
    assert_eq!(esperado, paths.iter().map(|p| std::path::Path::new(*p)).collect::<Vec<_>>());
}

#[test]
fn comparar_rutas_pone_el_separador_primero() {
    assert!(path_precedes("a/b", "a-c"));
    assert!(!path_precedes("a-c", "a/b"));
    assert!(path_precedes("a", "a/b"));
    assert!(path_precedes("a/b", "ab"));
    assert!(path_precedes("igual", "igual"));
    assert!(!path_precedes("b", "a"));
}

#[test]
fn una_marca_detecta_cualquier_cambio_en_disco() {
    let mark = visor_md::workspace::ChangeMark {
        relative_path: "nota.md".to_string(),
        byte_len: 10,
        modified: Some(5),
        directory: false,
    };
    assert!(!mark.differs_from(Some((false, 10, Some(5)))));
    assert!(mark.differs_from(None));
    assert!(mark.differs_from(Some((true, 10, Some(5)))));
    assert!(mark.differs_from(Some((false, 11, Some(5)))));
    assert!(mark.differs_from(Some((false, 10, Some(6)))));
    assert!(mark.differs_from(Some((false, 10, None))));
}
