use visor_md::document::{
    callout_prefix, classify_link_destination, context_actions, external_destination, heading_key,
    is_current_view_result, link_color, link_targets_in_document_order, matching_block_indices,
    native_html, next_link_target, opening_failure_blocks, push, remove_rendered_prefix,
    rendered_block_prefix, safe_mode_label, target_label, task_marker_replacement,
    validate_model, wikilink_parts, window_title, Block, BlockCursor, Brush, CalloutKind,
    ContextAction, DocumentMode, DocumentSelection, Emphasis, HtmlSemantic, InlineTarget,
    InlineTargetKind, Kind, LinkDestinationKind, Marker, NativeHtml, SourceRange, Span,
    TraversalState,
};
use visor_md::document::{
    output_literal_with_wikilinks, safe_source_blocks, InlineCollector, LineColumn, SourceIndex,
    Sourcepos,
};
use visor_md::limits::Degradation;
use visor_md::theme::day;

fn block(text: &str) -> Block {
    Block::new(
        text.to_string(),
        Vec::new(),
        Kind::Para,
        SourceRange { start: 0, end: 0 },
        Vec::new(),
    )
}

fn target(kind: InlineTargetKind, start: usize, end: usize) -> InlineTarget {
    InlineTarget {
        kind,
        start,
        end,
        source: SourceRange { start: 0, end: 0 },
        destination: "notas/uno.md".to_string(),
        title: String::new(),
    }
}

#[test]
fn el_titulo_hace_visible_el_modo_seguro() {
    let normal = window_title("nota.md", None, false, None);
    let seguro = window_title("hostil.md", Some(Degradation::DepthLimit), false, None);
    assert!(!normal.contains("modo seguro"));
    assert!(seguro.contains("modo seguro"));
    assert!(seguro.contains("hostil.md"));
}

#[test]
fn el_titulo_marca_cambios_sin_guardar() {
    let limpio = window_title("nota.md", None, false, None);
    let sucio = window_title("nota.md", None, true, None);
    assert!(!limpio.contains("nota.md *"));
    assert!(sucio.contains("nota.md *"));
}

#[test]
fn el_aviso_de_modo_seguro_explica_la_degradacion_sin_ocultar_la_fuente() {
    let label = safe_mode_label(Degradation::LineLimit);
    assert!(label.contains("Modo seguro"));
    assert!(label.contains("longitud de línea"));
    assert!(label.contains("fuente inerte"));
}

#[test]
fn el_texto_inerte_no_se_presenta_como_error_de_seguridad() {
    let title = window_title("datos.json", Some(Degradation::TextOnly), false, None);
    assert!(title.contains("texto inerte"));
    assert!(!title.contains("modo seguro"));
}

#[test]
fn un_fallo_de_apertura_deja_un_mensaje_renderizable_sin_detalles() {
    let (source, blocks) = opening_failure_blocks();
    assert_eq!(blocks.len(), 1);
    assert_eq!(blocks[0].text, source);
    assert!(blocks[0].source.is_valid_for(&source));
    assert!(blocks[0].targets.is_empty());
    assert!(!source.contains("C:\\"));
    assert!(!source.contains("permission"));
}

#[test]
fn los_destinos_de_enlace_se_clasifican_sin_acceder_a_ellos() {
    assert_eq!(
        classify_link_destination("https://example.test"),
        LinkDestinationKind::Web
    );
    assert_eq!(
        classify_link_destination("mailto:alguien@example.test"),
        LinkDestinationKind::Mail
    );
    assert_eq!(
        classify_link_destination("notas/tema.md"),
        LinkDestinationKind::RelativeFile
    );
    for path in [
        "file:///C:/secreto",
        "\\\\servidor\\share",
        "C:/secreto",
        "../secreto.md",
    ] {
        assert_eq!(
            classify_link_destination(path),
            LinkDestinationKind::Blocked
        );
    }
}

#[test]
fn los_enlaces_externos_e_internos_tienen_senales_distintas() {
    let day = day();
    assert_eq!(link_color(day, "https://example.test"), day.external_link);
    assert_eq!(
        link_color(day, "mailto:alguien@example.test"),
        day.external_link
    );
    assert_eq!(link_color(day, "notas/tema.md"), day.accent);
    assert_eq!(link_color(day, "../secreto.md"), day.dim);
}

#[test]
fn solo_web_y_correo_pueden_delegarse_al_sistema() {
    assert_eq!(
        external_destination("https://example.test"),
        Some("https://example.test")
    );
    assert_eq!(
        external_destination("  https://example.test  "),
        Some("https://example.test")
    );
    assert_eq!(
        external_destination("mailto:alguien@example.test"),
        Some("mailto:alguien@example.test")
    );
    assert_eq!(external_destination("notas/tema.md"), None);
    assert_eq!(external_destination("file:///C:/secreto"), None);
    assert_eq!(external_destination("\\\\servidor\\share"), None);
}

#[test]
fn la_seleccion_entre_bloques_abarca_los_intermedios() {
    let forward = DocumentSelection {
        anchor: BlockCursor {
            block: 1,
            offset: 3,
        },
        focus: BlockCursor {
            block: 3,
            offset: 2,
        },
    };
    let backward = DocumentSelection {
        anchor: forward.focus,
        focus: forward.anchor,
    };
    for selection in [forward, backward] {
        assert_eq!(selection.range_for(0, 8), None);
        assert_eq!(selection.range_for(1, 10), Some((3, 10)));
        assert_eq!(selection.range_for(2, 6), Some((0, 6)));
        assert_eq!(selection.range_for(3, 7), Some((0, 2)));
        assert_eq!(selection.range_for(4, 8), None);
    }

    let collapsed = DocumentSelection::collapsed(BlockCursor {
        block: 2,
        offset: 4,
    });
    assert_eq!(collapsed.range_for(2, 9), Some((4, 4)));
}

#[test]
fn una_vista_asincrona_solo_es_actual_para_su_documento_y_revision() {
    assert!(is_current_view_result(7, 7, 12, 12));
    assert!(!is_current_view_result(6, 7, 12, 12));
    assert!(!is_current_view_result(7, 7, 11, 12));
}

#[test]
fn el_cambio_de_tarea_toca_solo_el_marcador() {
    assert_eq!(task_marker_replacement("- [ ] pendiente"), Some((3, "x")));
    assert_eq!(task_marker_replacement("- [x] terminada"), Some((3, " ")));
    assert_eq!(task_marker_replacement("- [X] terminada"), Some((3, " ")));
    assert_eq!(task_marker_replacement("- [nota] sin tarea"), None);
}

#[test]
fn el_cambio_de_tarea_cuenta_bytes_utf8() {
    assert_eq!(task_marker_replacement("ñ [ ] x"), Some((4, "x")));
}

#[test]
fn solo_el_editor_ofrece_pegar() {
    assert_eq!(
        context_actions(DocumentMode::Reading),
        vec![ContextAction::CopyText, ContextAction::CopyMarkdown]
    );
    assert_eq!(
        context_actions(DocumentMode::SourceEditing),
        vec![
            ContextAction::Paste,
            ContextAction::CopyText,
            ContextAction::CopyMarkdown
        ]
    );
    assert!(!ContextAction::CopyText.source_markdown());
    assert!(ContextAction::CopyMarkdown.source_markdown());
    assert_eq!(ContextAction::Paste.label(), "Pegar");
}

#[test]
fn el_titulo_incluye_el_aviso() {
    assert_eq!(
        window_title("a.md", Some(Degradation::BlockLimit), true, Some("guardado")),
        "Visor MD v2 · a.md * · modo seguro · guardado"
    );
}

#[test]
fn la_primera_degradacion_es_la_que_queda() {
    let mut state = TraversalState::default();
    state.mark(Degradation::DepthLimit);
    state.mark(Degradation::BlockLimit);
    assert_eq!(state.degradation, Some(Degradation::DepthLimit));
}

#[test]
fn el_enfasis_plano_no_tiene_marcas() {
    let mut style = Emphasis::default();
    assert!(style.is_plain());
    HtmlSemantic::Kbd.apply(&mut style);
    assert!(style.kbd);
    assert!(!style.is_plain());
    let brush = Brush::text((1, 2, 3));
    assert_eq!(brush.background, None);
    assert_eq!(Brush::semantic((1, 2, 3), Some((4, 5, 6)), -2).baseline_shift, -2);
}

#[test]
fn solo_etiquetas_html_permitidas_tienen_semantica() {
    assert_eq!(native_html(" <BR /> "), Some(NativeHtml::Break));
    assert_eq!(
        native_html("<kbd>"),
        Some(NativeHtml::Open(HtmlSemantic::Kbd))
    );
    assert_eq!(
        native_html("</Sup>"),
        Some(NativeHtml::Close(HtmlSemantic::Sup))
    );
    assert_eq!(native_html("<script>"), None);
    assert_eq!(native_html("<kbd class=x>"), None);
}

#[test]
fn los_wikilinks_separan_destino_y_alias() {
    assert_eq!(
        wikilink_parts(" nota | Alias "),
        Some(("nota".to_string(), "Alias".to_string()))
    );
    assert_eq!(
        wikilink_parts("nota|"),
        Some(("nota".to_string(), "nota".to_string()))
    );
    assert_eq!(wikilink_parts("  "), None);
    assert_eq!(wikilink_parts("|alias"), None);
    assert_eq!(wikilink_parts("a\nb"), None);
}

#[test]
fn la_clave_de_encabezado_ignora_cierres_y_mayusculas() {
    assert_eq!(heading_key("  Título Grande ## "), "título grande");
}

#[test]
fn los_callouts_conocidos_indican_su_prefijo() {
    assert_eq!(
        callout_prefix("[!NOTE] texto"),
        Some((CalloutKind::Note, 8))
    );
    assert_eq!(
        callout_prefix("[!warning]- \tdetalle"),
        Some((CalloutKind::Warning, 13))
    );
    assert_eq!(callout_prefix("[!desconocido] x"), None);
    assert_eq!(callout_prefix("sin callout"), None);
    assert_eq!(CalloutKind::Danger.label(), "Peligro");
}

#[test]
fn quitar_el_prefijo_recorta_tramos_y_destinos() {
    let mut b = block("[!NOTE] hola");
    b.spans.push(Span {
        start: 0,
        end: 10,
        source: SourceRange { start: 0, end: 0 },
        style: Emphasis::default(),
    });
    b.spans.push(Span {
        start: 0,
        end: 3,
        source: SourceRange { start: 0, end: 0 },
        style: Emphasis::default(),
    });
    b.targets.push(target(InlineTargetKind::Link, 8, 12));
    remove_rendered_prefix(&mut b, 8);
    assert_eq!(b.text, "hola");
    assert_eq!(b.spans.len(), 1);
    assert_eq!((b.spans[0].start, b.spans[0].end), (0, 2));
    assert_eq!((b.targets[0].start, b.targets[0].end), (0, 4));

    let mut inside = block("áb");
    remove_rendered_prefix(&mut inside, 1);
    assert_eq!(inside.text, "áb");
}

#[test]
fn el_modelo_rechaza_rangos_invalidos() {
    let source = "hola";
    let mut ok = block("hola");
    ok.source = SourceRange { start: 0, end: 4 };
    assert_eq!(validate_model(source, &[ok.clone()]), Ok(()));
    let mut bad = ok.clone();
    bad.source = SourceRange { start: 3, end: 9 };
    assert_eq!(
        validate_model(source, &[bad]),
        Err("rango de fuente invalido en bloque")
    );
    let mut bad_span = ok.clone();
    bad_span.spans.push(Span {
        start: 2,
        end: 2,
        source: SourceRange { start: 0, end: 4 },
        style: Emphasis::default(),
    });
    assert_eq!(
        validate_model(source, &[bad_span]),
        Err("rango renderizado invalido en tramo inline")
    );
    let mut bad_target = ok;
    bad_target.targets.push(target(InlineTargetKind::Link, 0, 9));
    assert_eq!(
        validate_model(source, &[bad_target]),
        Err("rango renderizado invalido en destino inline")
    );
}

#[test]
fn copiar_vista_conserva_prefijos_y_une_bloques() {
    let mut item = block("primero");
    item.marker = Some(Marker::Text("•".to_string()));
    let mut task = block("terminado");
    task.marker = Some(Marker::Task { done: true });
    let mut quote = block("una cita");
    quote.kind = Kind::Quote;
    quote.quote_depth = 2;
    assert_eq!(rendered_block_prefix(&quote), "> > ");
    let blocks = vec![item, task, quote];
    let selection = DocumentSelection {
        anchor: BlockCursor {
            block: 2,
            offset: 8,
        },
        focus: BlockCursor {
            block: 0,
            offset: 0,
        },
    };
    assert_eq!(
        selection.rendered_text(&blocks).as_deref(),
        Some("• primero\n[x] terminado\n> > una cita")
    );
    let partial = DocumentSelection {
        anchor: BlockCursor {
            block: 0,
            offset: 3,
        },
        focus: BlockCursor {
            block: 1,
            offset: 4,
        },
    };
    assert_eq!(
        partial.rendered_text(&blocks).as_deref(),
        Some("mero\nterm")
    );
    let empty = DocumentSelection::collapsed(BlockCursor {
        block: 0,
        offset: 2,
    });
    assert_eq!(empty.rendered_text(&blocks), None);
}

#[test]
fn copiar_markdown_toma_la_fuente_de_bloques_completos() {
    let source = "# titulo\n\n**primero**\n\nsegundo\n";
    let mut first = block("primero");
    first.source = SourceRange { start: 10, end: 21 };
    let mut second = block("segundo");
    second.source = SourceRange { start: 23, end: 30 };
    let blocks = vec![first, second];
    let selection = DocumentSelection {
        anchor: BlockCursor {
            block: 0,
            offset: 3,
        },
        focus: BlockCursor {
            block: 1,
            offset: 2,
        },
    };
    assert_eq!(
        selection.source_blocks(source, &blocks).as_deref(),
        Some("**primero**\n\nsegundo")
    );
    let outside = DocumentSelection::collapsed(BlockCursor {
        block: 5,
        offset: 0,
    });
    assert_eq!(outside.source_blocks(source, &blocks), None);
}

#[test]
fn tab_recorre_solo_enlaces_navegables_en_orden() {
    let mut first = block("primero");
    first.targets.push(target(InlineTargetKind::Link, 0, 7));
    let mut image = block("imagen");
    image.targets.push(target(InlineTargetKind::Image, 0, 6));
    let mut third = block("segundo");
    third.targets.push(target(InlineTargetKind::WikiLink, 0, 7));
    let links = link_targets_in_document_order(&[first, image, third]);
    assert_eq!(links, vec![(0, 0), (2, 0)]);
    assert_eq!(next_link_target(&links, None, false), Some((0, 0)));
    assert_eq!(next_link_target(&links, Some((0, 0)), false), Some((2, 0)));
    assert_eq!(next_link_target(&links, Some((0, 0)), true), Some((2, 0)));
    assert_eq!(next_link_target(&links, Some((2, 0)), false), Some((0, 0)));
    assert_eq!(next_link_target(&links, Some((9, 9)), true), Some((2, 0)));
    assert_eq!(next_link_target(&[], None, false), None);
}

#[test]
fn la_busqueda_local_ignora_mayusculas_unicode() {
    let blocks = vec![block("uno"), block("dos con Clave"), block("tres con ñANDÚ")];
    assert_eq!(matching_block_indices(&blocks, "clave"), vec![1]);
    assert_eq!(matching_block_indices(&blocks, "Ñandú"), vec![2]);
    assert!(matching_block_indices(&blocks, "ausente").is_empty());
    assert!(matching_block_indices(&blocks, "").is_empty());
}

#[test]
fn un_bloque_en_blanco_no_se_agrega() {
    let mut out = Vec::new();
    push(
        &mut out,
        "  \n".to_string(),
        Vec::new(),
        Kind::Para,
        None,
        SourceRange { start: 0, end: 0 },
        Vec::new(),
    );
    assert!(out.is_empty());
    push(
        &mut out,
        "texto".to_string(),
        Vec::new(),
        Kind::Item(1),
        Some(Marker::Task { done: false }),
        SourceRange { start: 0, end: 5 },
        Vec::new(),
    );
    assert_eq!(out.len(), 1);
    assert_eq!(rendered_block_prefix(&out[0]), "[ ] ");
}

#[test]
fn cada_destino_se_anuncia_con_su_tipo() {
    assert_eq!(target_label(InlineTargetKind::Link, "https://x.test"), "enlace web");
    assert_eq!(target_label(InlineTargetKind::Link, "/etc/passwd"), "destino bloqueado");
    assert_eq!(target_label(InlineTargetKind::Image, "x.png"), "imagen");
    assert_eq!(target_label(InlineTargetKind::WikiLink, "nota"), "enlace de bóveda");
    assert!(InlineTargetKind::WikiLink.is_navigable());
    assert!(!InlineTargetKind::Image.is_navigable());
}

#[test]
fn la_vista_segura_parte_lineas_sin_romper_utf8() {
    let line = "é".repeat(9000);
    let source = format!("uno\r\n\n{line}");
    let index = SourceIndex::new(&source);
    let blocks = safe_source_blocks(&source, &index).unwrap();
    assert_eq!(blocks[0].text, "uno");
    assert_eq!((blocks[0].source.start, blocks[0].source.end), (0, 5));
    assert_eq!(blocks[1].text, "");
    assert_eq!((blocks[1].source.start, blocks[1].source.end), (5, 6));
    assert_eq!(blocks.len(), 4);
    assert_eq!(blocks[2].text.len(), 16384);
    assert_eq!(blocks[3].text.len(), 18000 - 16384);
    assert_eq!(blocks[3].source.end, source.len());
    for block in &blocks {
        assert!(block.source.is_valid_for(&source));
        assert_eq!(block.kind, Kind::Code);
    }
    let empty = safe_source_blocks("", &SourceIndex::new("")).unwrap();
    assert_eq!(empty.len(), 1);
    assert_eq!(empty[0].text, "");
}

#[test]
fn demasiadas_lineas_no_entran_en_la_vista_segura() {
    let source = "x\n".repeat(100_001);
    assert_eq!(
        safe_source_blocks(&source, &SourceIndex::new(&source)).err(),
        Some("demasiadas lineas para la vista segura")
    );
}

#[test]
fn el_indice_convierte_lineas_y_columnas_en_bytes() {
    let index = SourceIndex::new("ab\ncd\n");
    assert_eq!(index.line_starts, vec![0, 3, 6]);
    let range = index.range(Sourcepos {
        start: LineColumn { line: 2, column: 1 },
        end: LineColumn { line: 2, column: 2 },
    });
    assert_eq!((range.start, range.end), (3, 5));
    let clamped = index.range(Sourcepos {
        start: LineColumn { line: 9, column: 9 },
        end: LineColumn { line: 0, column: 0 },
    });
    assert_eq!((clamped.start, clamped.end), (6, 6));
}

#[test]
fn las_etiquetas_sin_cierre_quedan_visibles() {
    let plain = Emphasis::default();
    let src = SourceRange { start: 0, end: 0 };
    let mut c = InlineCollector::new();
    c.literal("a ", plain, src);
    c.open(HtmlSemantic::Mark, "<mark>".to_string(), src);
    c.literal("dentro", plain, src);
    assert!(!c.close(HtmlSemantic::Kbd));
    assert!(c.close(HtmlSemantic::Mark));
    c.open(HtmlSemantic::Kbd, "<kbd>".to_string(), src);
    c.literal("sin cierre", plain, src);
    let out = c.finish();
    assert_eq!(out.text, "a dentro<kbd>sin cierre");
    assert_eq!(out.spans.len(), 3);
    assert_eq!((out.spans[0].start, out.spans[0].end), (2, 8));
    assert!(out.spans[0].style.mark);
    assert!(out.spans[1].style.code);
    assert_eq!((out.spans[2].start, out.spans[2].end), (13, 23));
    assert!(!out.spans[2].style.kbd);

    let mut w = InlineCollector::new();
    output_literal_with_wikilinks(&mut w, "ver [[nota|la nota]] y [[ ]] y [[abierta", plain, src);
    assert_eq!(w.len(), "ver la nota y [[ ]] y [[abierta".len());
    let out = w.finish();
    assert_eq!(out.text, "ver la nota y [[ ]] y [[abierta");
    assert_eq!(out.targets.len(), 1);
    assert_eq!((out.targets[0].start, out.targets[0].end), (4, 11));
    assert_eq!(out.targets[0].destination, "nota");
    assert!(out.spans[0].style.link);
}
