use visor_md::editor::{EditError, EditHistory, SourceEditor, TextBuffer, MAX_HISTORY_BYTES};


fn buffer(source: &str) -> TextBuffer {
    TextBuffer::from_text(source)
}

#[test]
fn edita_utf8_y_revierte_sin_tocar_bytes_vecinos() {
    let mut source = buffer("inicio áé final");
    let mut history = EditHistory::new();
    let start = "inicio ".len();
    let end = start + "áé".len();

    assert!(history.apply(&mut source, start..end, "🔒").unwrap());
    assert_eq!(source.to_string(), "inicio 🔒 final");
    assert!(history.is_dirty());
    assert!(history.undo(&mut source).unwrap());
    assert_eq!(source.to_string(), "inicio áé final");
    assert!(!history.is_dirty());
    assert!(history.redo(&mut source).unwrap());
    assert_eq!(source.to_string(), "inicio 🔒 final");
}

#[test]
fn rechaza_rangos_que_partirian_utf8() {
    let mut source = buffer("á");
    let mut history = EditHistory::new();
    assert_eq!(
        history.apply(&mut source, 1..2, "x"),
        Err(EditError::InvalidRange)
    );
    assert_eq!(source.to_string(), "á");
}

#[test]
fn una_edicion_nueva_descarta_el_redo_anterior() {
    let mut source = buffer("abc");
    let mut history = EditHistory::new();
    history.apply(&mut source, 1..2, "B").unwrap();
    history.undo(&mut source).unwrap();
    history.apply(&mut source, 2..3, "C").unwrap();

    assert_eq!(source.to_string(), "abC");
    assert!(!history.can_redo());
}

#[test]
fn ediciones_repetidas_con_unicode_conservan_el_historial_y_los_limites() {
    let mut source = buffer("inicio áéí\nfinal");
    let mut editor = SourceEditor::new();
    let insertion = "inicio ".len();
    editor.set_cursor(&source, insertion, false).unwrap();

    for _ in 0..64 {
        assert!(editor.insert(&mut source, "🔐").unwrap());
    }
    assert!(source.is_char_boundary(editor.cursor()));
    assert_eq!(source.to_string().matches('🔐').count(), 64);

    for _ in 0..64 {
        assert!(editor.undo(&mut source).unwrap());
    }
    assert_eq!(source.to_string(), "inicio áéí\nfinal");
    assert!(!editor.is_dirty());

    for _ in 0..64 {
        assert!(editor.redo(&mut source).unwrap());
    }
    assert_eq!(source.to_string().matches('🔐').count(), 64);
}

#[test]
fn rodear_una_seleccion_unicode_es_un_solo_cambio_reversible() {
    let mut source = buffer("idea segura 🔐");
    let mut editor = SourceEditor::new();
    editor.set_cursor(&source, 0, false).unwrap();
    editor
        .set_cursor(&source, "idea segura".len(), true)
        .unwrap();

    assert!(editor.surround(&mut source, "**", "**", "texto").unwrap());
    assert_eq!(source.to_string(), "**idea segura** 🔐");
    assert_eq!(editor.selection(), 2.."**idea segura".len());
    assert!(editor.undo(&mut source).unwrap());
    assert_eq!(source.to_string(), "idea segura 🔐");
}

#[test]
fn rodear_un_cursor_deja_el_texto_guia_seleccionado() {
    let mut source = buffer("antes después");
    let mut editor = SourceEditor::new();
    editor.set_cursor(&source, "antes ".len(), false).unwrap();

    assert!(editor.surround(&mut source, "_", "_", "texto").unwrap());
    assert_eq!(source.to_string(), "antes _texto_después");
    assert_eq!(source.slice_bytes(editor.selection()).unwrap(), "texto");
}

#[test]
fn insertar_enlace_con_rotulo_unicode_deja_el_destino_para_reemplazar() {
    let mut source = buffer("guía ágil");
    let mut editor = SourceEditor::new();
    editor.set_cursor(&source, 0, false).unwrap();
    editor
        .set_cursor(&source, source.len_bytes(), true)
        .unwrap();

    assert!(editor.insert_link(&mut source).unwrap());
    assert_eq!(source.to_string(), "[guía ágil](https://)");
    assert_eq!(source.slice_bytes(editor.selection()).unwrap(), "https://");
    assert!(editor.undo(&mut source).unwrap());
    assert_eq!(source.to_string(), "guía ágil");
}

#[test]
fn marcar_guardado_distingue_estado_sucio_de_historial() {
    let mut source = buffer("nota");
    let mut history = EditHistory::new();
    history.apply(&mut source, 4..4, " nueva").unwrap();
    history.mark_saved();
    assert!(!history.is_dirty());
    assert!(history.can_undo());
    history.undo(&mut source).unwrap();
    assert!(history.is_dirty());
}

#[test]
fn el_historial_acotado_descarta_undo_antiguo_no_el_documento() {
    let mut source = TextBuffer::new();
    let mut history = EditHistory::new();
    let chunk = "x".repeat(MAX_HISTORY_BYTES / 2 + 1);
    history.apply(&mut source, 0..0, &chunk).unwrap();
    let end = source.len_bytes();
    history.apply(&mut source, end..end, &chunk).unwrap();

    assert_eq!(source.len_bytes(), chunk.len() * 2);
    assert!(history.can_undo());
    history.undo(&mut source).unwrap();
    assert_eq!(source.to_string(), chunk);
    assert!(!history.can_undo());
}

#[test]
fn rehacer_no_duplica_el_presupuesto_del_mismo_cambio() {
    let mut source = TextBuffer::new();
    let mut history = EditHistory::new();
    let chunk = "x".repeat(MAX_HISTORY_BYTES / 3 + 1);
    history.apply(&mut source, 0..0, &chunk).unwrap();
    let end = source.len_bytes();
    history.apply(&mut source, end..end, &chunk).unwrap();

    history.undo(&mut source).unwrap();
    history.redo(&mut source).unwrap();
    history.undo(&mut source).unwrap();
    history.undo(&mut source).unwrap();
    assert!(source.is_empty());
}

#[test]
fn cursor_y_seleccion_editan_fuente_sin_partir_unicode() {
    let mut source = buffer("ábc");
    let mut editor = SourceEditor::new();
    editor.set_cursor(&source, "á".len(), false).unwrap();
    editor
        .set_cursor(&source, source.len_bytes(), true)
        .unwrap();
    assert_eq!(editor.selection(), "á".len()..source.len_bytes());
    editor.insert(&mut source, "🔒").unwrap();
    assert_eq!(source.to_string(), "á🔒");
    editor.backspace(&mut source).unwrap();
    assert_eq!(source.to_string(), "á");
    editor.undo(&mut source).unwrap();
    assert_eq!(source.to_string(), "á🔒");
}

#[test]
fn insertar_crlf_no_normaliza_las_lineas_existentes() {
    let mut source = buffer("uno\r\ndos");
    let mut editor = SourceEditor::new();
    editor.set_cursor(&source, "uno".len(), false).unwrap();
    editor.insert(&mut source, "\r\n").unwrap();
    assert_eq!(source.to_string(), "uno\r\n\r\ndos");
}

#[test]
fn el_buffer_grande_edita_el_centro_sin_corromper_vecinos() {
    let left = "área segura\r\n".repeat(16_384);
    let right = "日本語 y 🔐\n".repeat(16_384);
    let insertion = left.len();
    let original_len = insertion + right.len();
    let mut source = buffer(&(left.clone() + &right));
    let mut editor = SourceEditor::new();

    editor.set_cursor(&source, insertion, false).unwrap();
    assert!(editor.insert(&mut source, "**centro**\r\n").unwrap());
    assert_eq!(source.len_bytes(), original_len + "**centro**\r\n".len());
    assert_eq!(
        source
            .slice_bytes(insertion.saturating_sub(14)..insertion + "**centro**\r\n".len())
            .unwrap(),
        "área segura\r\n**centro**\r\n"
    );
    assert!(editor.undo(&mut source).unwrap());
    assert_eq!(source.len_bytes(), original_len);
    assert_eq!(source.slice_bytes(0..left.len()).unwrap(), left);
    assert_eq!(
        source.slice_bytes(left.len()..source.len_bytes()).unwrap(),
        right
    );
}

#[test]
fn iterar_lineas_conserva_crlf_y_una_linea_final_vacia() {
    let source = buffer("uno\r\ndos\n");
    let lines: Vec<String> = source.lines().into_iter().map(|line| line.to_string()).collect();
    assert_eq!(lines, ["uno\r\n", "dos\n", ""]);
    assert_eq!(source.to_string(), "uno\r\ndos\n");
}

#[test]
fn navegacion_vertical_conserva_unicode_y_limita_lineas_cortas() {
    let source = buffer("áéí\n文\n🔒🔒🔒");
    let mut editor = SourceEditor::new();
    editor.set_cursor(&source, "áé".len(), false).unwrap();
    editor.move_line(&source, true, false).unwrap();
    assert_eq!(editor.cursor(), "áéí\n文".len());
    editor.move_line(&source, true, false).unwrap();
    assert_eq!(editor.cursor(), "áéí\n文\n🔒".len());
}

#[test]
fn inicio_y_fin_respetan_crlf_y_seleccion() {
    let source = buffer("uno\r\ndos\r\n");
    let mut editor = SourceEditor::new();
    editor.set_cursor(&source, "uno\r\nd".len(), false).unwrap();
    editor.move_line_boundary(&source, false, false).unwrap();
    assert_eq!(editor.cursor(), "uno\r\n".len());
    editor.move_line_boundary(&source, true, true).unwrap();
    assert_eq!(editor.selection(), "uno\r\n".len().."uno\r\ndos\r".len());
}

#[test]
fn seleccionar_todo_abarca_la_fuente_utf8_completa() {
    let source = buffer("á\n🔒");
    let mut editor = SourceEditor::new();
    editor.select_all(&source);
    assert_eq!(editor.selection(), 0..source.len_bytes());
}

#[test]
fn fijar_cursor_sin_extender_cancela_la_seleccion() {
    let source = buffer("ábc");
    let mut editor = SourceEditor::new();
    editor.select_all(&source);
    editor.set_cursor(&source, "á".len(), false).unwrap();
    assert_eq!(editor.selection(), "á".len().."á".len());
}

#[test]
fn borrar_una_seleccion_deja_el_cursor_al_inicio_de_lo_borrado() {
    let mut source = buffer("hola");
    let mut editor = SourceEditor::new();
    editor.select_all(&source);
    assert_eq!(editor.delete(&mut source), Ok(true));
    assert_eq!(source.to_string(), "");
    assert_eq!(editor.cursor(), 0);
    assert_eq!(editor.anchor(), 0);
    assert_eq!(editor.backspace(&mut source), Ok(false));
}

#[test]
fn deshacer_deja_el_cursor_en_un_limite_de_caracter() {
    let mut source = buffer("é");
    let mut editor = SourceEditor::new();
    editor.select_all(&source);
    assert_eq!(editor.insert(&mut source, "ab"), Ok(true));
    assert_eq!(editor.move_left(&source, false), Ok(()));
    assert_eq!(editor.cursor(), 1);
    assert_eq!(editor.undo(&mut source), Ok(true));
    assert_eq!(source.to_string(), "é");
    assert_eq!(editor.cursor(), 0);
    assert_eq!(editor.anchor(), 0);
    assert!(source.is_char_boundary(editor.cursor()));
    assert_eq!(editor.redo(&mut source), Ok(true));
    assert_eq!(source.to_string(), "ab");
    assert_eq!(editor.cursor(), 0);
}

#[test]
fn un_historial_recuperado_no_deshace_cambios_ajenos() {
    let mut source = buffer("nota");
    let mut history = EditHistory::new();
    assert_eq!(history.apply(&mut source, 4..4, " nueva"), Ok(true));
    let before = history.current_revision();
    history.mark_recovered();
    assert!(history.is_dirty());
    assert_ne!(history.current_revision(), before);
    assert_eq!(history.undo(&mut source), Err(EditError::InconsistentHistory));
    assert_eq!(source.to_string(), "nota nueva");
}
