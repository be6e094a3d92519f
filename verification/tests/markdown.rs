use visor_md::document::{
    link_targets_in_document_order, next_link_target, BlockCursor, DocumentSelection,
    matching_block_indices, validate_model, Block, CellAlignment, Emphasis, InlineTargetKind,
    Kind, LineColumn, Marker, SourceIndex, Sourcepos,
};
use visor_md::limits::{Degradation, MAX_BLOCKS, MAX_NEST, MAX_SAFE_LINE_BYTES};
use visor_md::markdown::{blocks_from_tree, has_overlong_line, MdNode, MdValue, ParseOutcome};
use visor_md::parser::{document_view, parse_blocks};

fn parse(md: &str) -> Result<ParseOutcome, &'static str> {
    parse_blocks(md)
}

fn aplanar(md: &str) -> Vec<Block> {
    parse(md).expect("el documento de prueba debe ser valido").blocks
}

fn enfasis_de(md: &str, aguja: &str) -> Emphasis {
    let blocks = aplanar(md);
    for b in &blocks {
        if let Some(pos) = b.text.find(aguja) {
            for s in &b.spans {
                if s.start <= pos && pos < s.end {
                    return s.style;
                }
            }
            return Emphasis::default();
        }
    }
    panic!("no se encontro {aguja:?} en {:?}", blocks.iter().map(|b| &b.text).collect::<Vec<_>>());
}

fn pos(l1: usize, c1: usize, l2: usize, c2: usize) -> Sourcepos {
    Sourcepos { start: LineColumn { line: l1, column: c1 }, end: LineColumn { line: l2, column: c2 } }
}

fn node(value: MdValue, p: Sourcepos, children: Vec<MdNode>) -> MdNode {
    MdNode { value, pos: p, children }
}

#[test]
fn entrada_patologica_no_entra_en_panico() {
    let casos = vec![
        String::new(),
        "\0\0\0".to_string(),
        "#".repeat(10_000),
        "> ".repeat(5_000) + "hola",
        "- ".repeat(5_000) + "item",
        "*".repeat(20_000),
        "|a|b|\n|-|-|\n".to_string() + &"|x|y|\n".repeat(5_000),
        "```\n".to_string() + &"x\n".repeat(10_000) + "```",
        "[a]: b\n".repeat(5_000),
        "\u{202E}\u{200B}texto invisible".to_string(),
        "😀🏳️‍🌈".repeat(1_000),
    ];
    for caso in casos {
        let _ = aplanar(&caso);
    }
}

#[test]
fn barrido_adversarial_determinista_no_entra_en_panico() {
    let fragmentos: &[&str] = &[
        "# título\n",
        "> cita ",
        "- [x] tarea\n",
        "**énfasis",
        "[enlace](https://example.com/a?b=c)",
        "<script>alert(1)</script>",
        "<mark atributo=\"inert\">",
        "</mark>",
        "`código`",
        "|a|b|\n|-|-|\n",
        "😀\u{202e}\u{200b}",
        "[",
        "](",
        "```rust\n",
        "\n",
    ];
    for seed in 0..128_u64 {
        let mut state = seed.wrapping_add(0x9e37_79b9);
        let mut input = String::new();
        for _ in 0..96 {
            state = state.wrapping_mul(6364136223846793005).wrapping_add(1);
            let fragment = fragmentos[(state as usize) % fragmentos.len()];
            input.push_str(fragment);
        }
        assert!(parse(&input).is_ok(), "el seed {seed} no produjo un modelo");
    }
}

#[test]
fn un_documento_normal_no_entra_en_modo_seguro() {
    let outcome = parse("# Titulo\n\nTexto con **formato**.").expect("el documento normal debe poder prepararse");
    assert_eq!(outcome.degradation, None);
    assert!(outcome.blocks.iter().any(|block| block.spans.len() == 1));
}

#[test]
fn el_modo_seguro_conserva_la_fuente_completa() {
    let md = "> ".repeat(5_000) + "linea final sin salto";
    let outcome = parse(&md).expect("la vista segura debe ser representable");
    assert_eq!(outcome.degradation, Some(Degradation::DepthLimit));
    let reconstructed = outcome
        .blocks
        .iter()
        .map(|block| &md[block.source.start..block.source.end])
        .collect::<String>();
    assert_eq!(reconstructed, md, "el fallback perdio parte de la fuente");
    assert!(outcome.blocks.iter().all(|block| matches!(block.kind, Kind::Code)), "la vista segura intento interpretar la fuente");
}

#[test]
fn una_linea_extensa_pasa_a_fuente_inerte_sin_romper_utf8() {
    let source = "á".repeat(MAX_SAFE_LINE_BYTES / 2 + 1);
    let outcome = parse(&source).expect("la línea extensa debe degradar");
    assert_eq!(outcome.degradation, Some(Degradation::LineLimit));
    assert!(outcome.blocks.len() > 1);
    assert!(outcome.blocks.iter().all(|block| block.text.len() <= MAX_SAFE_LINE_BYTES));
    assert!(outcome.blocks.iter().all(|block| block.text.is_char_boundary(block.text.len())));
    let reconstructed: String = outcome.blocks.iter().map(|block| &source[block.source.start..block.source.end]).collect();
    assert_eq!(reconstructed, source);
}

#[test]
fn los_tipos_de_bloque_sobreviven_al_aplanado() {
    let blocks = aplanar("# uno\n\n## dos\n\ntexto\n\n- item\n\n|a|b|\n|-|-|\n|c|d|\n");
    let tipos: Vec<String> = blocks.iter().map(|b| format!("{:?}", b.kind)).collect();
    assert!(tipos.iter().any(|t| t.contains("Heading(1)")), "{tipos:?}");
    assert!(tipos.iter().any(|t| t.contains("Heading(2)")), "{tipos:?}");
    assert!(tipos.iter().any(|t| t.contains("Para")), "{tipos:?}");
    assert!(tipos.iter().any(|t| t.contains("Item")), "{tipos:?}");
    assert!(tipos.iter().any(|t| t.contains("TableRow")), "{tipos:?}");
}

#[test]
fn el_bloque_de_codigo_se_parte_por_lineas() {
    let blocks = aplanar("```\nuno\ndos\ntres\n```");
    let codigo: Vec<_> = blocks.iter().filter(|b| matches!(b.kind, Kind::Code)).collect();
    assert_eq!(codigo.len(), 3, "se esperaban 3 lineas de codigo");
    assert_eq!(codigo[0].text, "uno");
    assert_eq!(codigo[2].text, "tres");
}

#[test]
fn el_bloque_de_codigo_vacio_no_desaparece() {
    let blocks = aplanar("```\n```");
    assert_eq!(blocks.len(), 1);
    assert!(matches!(blocks[0].kind, Kind::Code));
    assert!(blocks[0].text.is_empty());
}

#[test]
fn las_notas_al_pie_se_muestran_sin_html_ni_perder_la_definicion() {
    let source = "Texto con nota[^uno].\n\n[^uno]: Definición con áéí.";
    let outcome = parse(source).expect("las notas al pie deben parsearse");
    validate_model(source, &outcome.blocks).expect("los rangos de nota son válidos");
    let rendered = outcome.blocks.iter().map(|block| block.text.as_str()).collect::<Vec<_>>().join("\n");
    assert!(rendered.contains("Texto con nota[1]."));
    assert!(rendered.contains("Definición con áéí."));
}

#[test]
fn la_busqueda_local_devuelve_solo_bloques_que_contienen_la_consulta() {
    let blocks = parse("uno\n\ndos con Clave\n\ntres con ñANDÚ").expect("la fixture debe parsearse").blocks;
    assert_eq!(matching_block_indices(&blocks, "clave"), vec![1]);
    assert_eq!(matching_block_indices(&blocks, "Ñandú"), vec![2]);
    assert!(matching_block_indices(&blocks, "ausente").is_empty());
    assert!(matching_block_indices(&blocks, "").is_empty());
}

#[test]
fn las_marcas_no_quedan_en_el_texto() {
    let blocks = aplanar("Un **negrita** y un _cursiva_ y un `codigo`.");
    let texto = &blocks[0].text;
    assert!(!texto.contains('*'), "quedaron asteriscos: {texto:?}");
    assert!(!texto.contains('_'), "quedaron guiones bajos: {texto:?}");
    assert!(!texto.contains('`'), "quedaron backticks: {texto:?}");
    assert!(texto.contains("negrita") && texto.contains("cursiva"));
}

#[test]
fn el_salto_forzado_no_se_aplana_como_espacio() {
    let hard = aplanar("uno  \ndos");
    let soft = aplanar("uno\ndos");
    assert_eq!(hard[0].text, "uno\ndos");
    assert_eq!(soft[0].text, "uno dos");
}

#[test]
fn escapes_y_entidades_llegan_como_texto_visible() {
    let blocks = aplanar(r"\*literal\* &amp; &#x1F600;");
    assert_eq!(blocks[0].text, "*literal* & 😀");
    assert!(blocks[0].spans.is_empty());
}

#[test]
fn encabezado_setext_conserva_nivel_y_origen() {
    let md = "Titulo\n======";
    let blocks = aplanar(md);
    assert_eq!(blocks.len(), 1);
    assert!(matches!(blocks[0].kind, Kind::Heading(1)));
    assert_eq!(blocks[0].text, "Titulo");
    assert_eq!(&md[blocks[0].source.start..blocks[0].source.end], md);
}

#[test]
fn cada_enfasis_llega_a_su_tramo() {
    assert!(enfasis_de("un **fuerte** aca", "fuerte").strong);
    assert!(enfasis_de("un _suave_ aca", "suave").emph);
    assert!(enfasis_de("un `mono` aca", "mono").code);
    assert!(enfasis_de("un ~~tachado~~ aca", "tachado").strike);
    assert!(enfasis_de("un ==importante== aca", "importante").mark);
    assert!(enfasis_de("un [enlace](http://x) aca", "enlace").link);
}

#[test]
fn autolinks_conservan_texto_y_destino() {
    let blocks = aplanar("Visita https://example.com/ruta y <correo@example.com>.");
    let block = &blocks[0];
    assert_eq!(block.targets.len(), 2);
    assert_eq!(block.targets[0].kind, InlineTargetKind::Link);
    assert_eq!(block.targets[0].destination, "https://example.com/ruta");
    assert_eq!(block.targets[1].destination, "mailto:correo@example.com");
    for target in &block.targets {
        assert!(block.text.is_char_boundary(target.start));
        assert!(block.text.is_char_boundary(target.end));
    }
}

#[test]
fn wikilinks_de_obsidian_son_enlaces_nativos_sin_interpretar_codigo() {
    let blocks = aplanar("Ver [[clases/redes#Modelo|la guía]], [[seguridad]] y [[#Inicio]].\n\n`[[literal]]`");
    assert_eq!(blocks[0].text, "Ver la guía, seguridad y #Inicio.");
    let targets: Vec<_> = blocks[0].targets.iter().filter(|target| target.kind == InlineTargetKind::WikiLink).collect();
    assert_eq!(targets.len(), 3);
    assert_eq!(targets[0].destination, "clases/redes#Modelo");
    assert_eq!(targets[1].destination, "seguridad");
    assert_eq!(targets[2].destination, "#Inicio");
    assert!(blocks[0].spans.iter().any(|span| span.style.link));
    assert_eq!(blocks[1].text, "[[literal]]");
    assert!(blocks[1].targets.is_empty());
}

#[test]
fn wikilinks_defectuosos_se_conservan_como_texto() {
    let block = &aplanar("[[ ]] y [[sin cierre")[0];
    assert_eq!(block.text, "[[ ]] y [[sin cierre");
    assert!(block.targets.is_empty());
}

#[test]
fn el_enfasis_anidado_se_acumula() {
    let e = enfasis_de("**fuerte con _suave_ adentro**", "suave");
    assert!(e.strong && e.emph, "se perdio un enfasis al anidar: {e:?}");
}

#[test]
fn el_texto_plano_no_genera_tramos() {
    let blocks = aplanar("Una linea comun y corriente, sin nada de formato.");
    assert!(blocks[0].spans.is_empty(), "tramos de mas: {:?}", blocks[0].spans);
}

#[test]
fn los_rangos_caen_en_limites_de_caracter() {
    for md in ["**ñandú** y **camión**", "un `código` acentuado", "**😀 emoji** y _más_", "**a_b_c** mezclado"] {
        for b in aplanar(md) {
            for s in &b.spans {
                assert!(s.end <= b.text.len(), "rango fuera de texto en {md:?}");
                assert!(s.start < s.end, "rango vacio o invertido en {md:?}");
                assert!(
                    b.text.is_char_boundary(s.start) && b.text.is_char_boundary(s.end),
                    "rango parte un caracter en {md:?}: {s:?} sobre {:?}",
                    b.text
                );
            }
        }
    }
}

#[test]
fn los_marcadores_de_lista_se_numeran_bien() {
    let ordenada = aplanar("3. tres\n4. cuatro\n5. cinco");
    let marcas: Vec<_> = ordenada.iter().filter_map(|b| b.marker.clone()).collect();
    assert_eq!(
        marcas,
        vec![Marker::Text("3.".into()), Marker::Text("4.".into()), Marker::Text("5.".into())],
        "numeracion mal"
    );
    let vinetas = aplanar("- uno\n- dos");
    let marcas: Vec<_> = vinetas.iter().filter_map(|b| b.marker.clone()).collect();
    assert_eq!(marcas, vec![Marker::Text("•".into()), Marker::Text("•".into())]);
}

#[test]
fn cada_lista_incrementa_una_sola_vez_la_sangria() {
    let blocks = aplanar("- primero\n  - segundo");
    let depths: Vec<_> = blocks
        .iter()
        .filter_map(|block| match block.kind {
            Kind::Item(depth) => Some(depth),
            _ => None,
        })
        .collect();
    assert_eq!(depths, vec![1, 2]);
}

#[test]
fn las_tareas_marcan_su_casilla() {
    let blocks = aplanar("- [ ] pendiente\n- [x] hecha");
    let marcas: Vec<_> = blocks.iter().filter_map(|b| b.marker.clone()).collect();
    assert_eq!(marcas, vec![Marker::Task { done: false }, Marker::Task { done: true }]);
}

#[test]
fn la_cita_conserva_su_estructura() {
    let blocks = aplanar("> primero\n>\n> segundo");
    let citas: Vec<_> = blocks.iter().filter(|b| matches!(b.kind, Kind::Quote)).collect();
    assert_eq!(citas.len(), 2, "la cita se aplasto: {:?}", blocks.iter().map(|b| &b.text).collect::<Vec<_>>());
}

#[test]
fn callout_conocido_se_renderiza_sin_reescribir_su_fuente() {
    let source = "> [!WARNING] Revisa la red\n>\n> Texto de apoyo.";
    let blocks = aplanar(source);
    assert!(blocks.iter().all(|block| matches!(block.kind, Kind::Callout)));
    assert_eq!(blocks[0].text, "Revisa la red");
    assert!(matches!(blocks[0].marker, Some(Marker::Text(ref label)) if label == "Atención"));
    assert!(source.contains("[!WARNING]"));
}

#[test]
fn callout_desconocido_permanece_como_cita_visible() {
    let blocks = aplanar("> [!CUSTOM] Conserva el marcador");
    assert!(matches!(blocks[0].kind, Kind::Quote));
    assert_eq!(blocks[0].text, "[!CUSTOM] Conserva el marcador");
}

#[test]
fn la_linea_horizontal_produce_un_bloque() {
    let blocks = aplanar("antes\n\n---\n\ndespues");
    assert!(blocks.iter().any(|b| matches!(b.kind, Kind::Rule)), "no se genero la linea horizontal");
}

#[test]
fn el_anidamiento_profundo_se_corta_en_vez_de_desbordar() {
    for md in [
        "> ".repeat(5_000) + "hola",
        "- ".repeat(5_000) + "item",
        "*".repeat(4_000) + "x" + &"*".repeat(4_000),
        "> - > - ".repeat(1_000) + "mezclado",
    ] {
        let outcome = parse(&md).expect("debe degradar sin caerse");
        assert_eq!(outcome.degradation, Some(Degradation::DepthLimit), "la entrada profunda no activo el modo seguro");
        assert!(outcome.blocks.len() < MAX_BLOCKS, "explosion de bloques");
    }
}

#[test]
fn la_imagen_se_anuncia_en_vez_de_desaparecer() {
    let blocks = aplanar("mira ![un gato](gato.png) aca");
    assert!(blocks[0].text.contains("un gato"), "se perdio la imagen: {:?}", blocks[0].text);
}

#[test]
fn el_html_desconocido_permanece_visible_e_inerte() {
    let inline = aplanar("antes <script src=\"https://evil.test/x.js\"> despues");
    assert!(inline[0].text.contains("<script"));
    assert!(inline[0].targets.is_empty(), "HTML creo un destino activo");
    let block = aplanar("<iframe src=\"file:///secreto\">\ncontenido\n</iframe>");
    let visible = block.iter().map(|item| item.text.as_str()).collect::<Vec<_>>().join("\n");
    assert!(visible.contains("<iframe"));
    assert!(visible.contains("file:///secreto"));
    assert!(block.iter().all(|item| item.targets.is_empty()));
}

#[test]
fn html_hostil_historico_sigue_visible_y_sin_destinos() {
    let md = r#"<script>window.__XSS = true</script>
<img src=x onerror="alert(1)">
<form action="https://atacante.example"><input autofocus></form>
<style>body { display: none }</style>
<svg onload="alert(2)"><foreignObject>texto</foreignObject></svg>
<div style="position:fixed;inset:0">barra falsa</div>"#;
    let blocks = aplanar(md);
    let visible = blocks.iter().map(|block| block.text.as_str()).collect::<Vec<_>>().join("\n");
    for evidence in ["<script>", "onerror", "<form", "<style>", "<svg", "barra falsa"] {
        assert!(visible.contains(evidence), "se oculto {evidence:?}");
    }
    assert!(blocks.iter().all(|block| block.targets.is_empty()));
}

#[test]
fn markdown_defectuoso_historico_llega_hasta_el_final() {
    let md = r#"# Documento convertido

| cabecera | con | columnas |
| --- | --- |
| fila corta |

![](imagen_que_no_existe.png)

```python
def ejemplo():
    return "falta la valla de cierre"

Pagina 14 de 14"#;
    let blocks = aplanar(md);
    let visible = blocks.iter().map(|block| block.text.as_str()).collect::<Vec<_>>().join("\n");
    assert!(visible.contains("Documento convertido"));
    assert!(visible.contains("Pagina 14 de 14"));
    validate_model(md, &blocks).expect("el documento defectuoso conserva un modelo valido");
}

#[test]
fn br_es_nativo_pero_sus_atributos_no_se_interpretan() {
    for tag in ["<br>", "<BR/>", "<br />"] {
        let blocks = aplanar(&format!("antes{tag}despues"));
        assert_eq!(blocks[0].text, "antes\ndespues");
    }
    let blocks = aplanar("antes<br onclick=\"alert(1)\">despues");
    assert!(blocks[0].text.contains("onclick"));
    assert!(!blocks[0].text.contains('\n'));
    assert!(blocks[0].targets.is_empty());
}

#[test]
fn la_allowlist_html_se_vuelve_estilo_nativo_sin_atributos() {
    let md = "Usa <kbd>Ctrl</kbd>, <mark>importante</mark>, H<sub>2</sub>O y x<sup>2</sup>.";
    let block = &aplanar(md)[0];
    for tag in ["<kbd>", "</kbd>", "<mark>", "</mark>", "<sub>", "</sub>", "<sup>", "</sup>"] {
        assert!(!block.text.contains(tag), "la etiqueta permitida quedo visible: {tag}");
    }
    assert!(enfasis_de(md, "Ctrl").kbd);
    assert!(enfasis_de(md, "importante").mark);
    let sub_pos = block.text.find("H2O").expect("formula visible") + 1;
    let sup_pos = block.text.find("x2").expect("potencia visible") + 1;
    assert!(block.spans.iter().any(|span| span.start <= sub_pos && sub_pos < span.end && span.style.sub));
    assert!(block.spans.iter().any(|span| span.start <= sup_pos && sup_pos < span.end && span.style.sup));
    let con_atributos = aplanar("<mark onclick=alert(1)>no seguro</mark>");
    assert!(con_atributos[0].text.contains("onclick"));
    assert!(con_atributos[0].targets.is_empty());
}

#[test]
fn html_permitido_sin_cierre_no_oculta_su_marca() {
    let block = &aplanar("antes <mark>despues")[0];
    assert_eq!(block.text, "antes <mark>despues");
    assert!(!enfasis_de("antes <mark>despues", "despues").mark);
}

#[test]
fn los_rangos_de_fuente_son_validos_y_apuntan_al_original() {
    let md = "# Titulo\n\nUn **ñandú** y un [enlace](destino.md).";
    let blocks = aplanar(md);
    validate_model(md, &blocks).expect("el modelo debe tener rangos validos");
    let span = blocks
        .iter()
        .flat_map(|block| &block.spans)
        .find(|span| md[span.source.start..span.source.end].contains("ñandú"))
        .expect("el texto enfatizado conserva su origen");
    assert_eq!(&md[span.source.start..span.source.end], "ñandú");
    let heading = blocks.iter().find(|block| matches!(block.kind, Kind::Heading(1))).unwrap();
    assert_eq!(&md[heading.source.start..heading.source.end], "# Titulo");
}

#[test]
fn los_enlaces_e_imagenes_conservan_su_destino() {
    let blocks = aplanar("Un [documento](docs/uno.md \"nota\") y ![captura](img/a.png \"imagen\").");
    let targets: Vec<_> = blocks.iter().flat_map(|block| &block.targets).collect();
    assert_eq!(targets.len(), 2);
    assert_eq!(targets[0].kind, InlineTargetKind::Link);
    assert_eq!(targets[0].destination, "docs/uno.md");
    assert_eq!(targets[0].title, "nota");
    assert_eq!(targets[1].kind, InlineTargetKind::Image);
    assert_eq!(targets[1].destination, "img/a.png");
    assert_eq!(targets[1].title, "imagen");
}

#[test]
fn el_codigo_conserva_el_lenguaje() {
    let blocks = aplanar("```rust\nfn main() {}\n```");
    let code = blocks.iter().find(|block| matches!(block.kind, Kind::Code)).unwrap();
    assert_eq!(code.code_info.as_deref(), Some("rust"));
}

#[test]
fn las_tablas_conservan_sus_celdas() {
    let blocks = aplanar("| nombre | valor |\n| --- | --- |\n| uno | **dos** |");
    let row = blocks
        .iter()
        .find(|block| {
            matches!(block.kind, Kind::TableRow { header: false })
                && block.table_cells.first().is_some_and(|cell| cell.text == "uno")
        })
        .expect("fila de datos");
    assert_eq!(row.table_cells.len(), 2);
    assert_eq!(row.table_cells[1].text, "dos");
    assert!(row.spans.iter().any(|span| span.style.strong));
}

#[test]
fn las_celdas_guardan_estilos_con_rangos_locales() {
    let blocks = aplanar("| nombre | valor |\n| --- | --- |\n| uno | **dos** |");
    let row = blocks.iter().find(|block| matches!(block.kind, Kind::TableRow { header: false })).expect("fila de datos");
    let cell = &row.table_cells[1];
    assert_eq!(cell.text, "dos");
    assert!(cell.spans.iter().any(|span| span.style.strong && span.end <= cell.text.len()));
}

#[test]
fn las_tablas_conservan_alineacion_por_columna() {
    let blocks = aplanar("| izquierda | centro | derecha |\n| :--- | :---: | ---: |\n| a | b | c |");
    let row = blocks.iter().find(|block| matches!(block.kind, Kind::TableRow { header: false })).unwrap();
    assert_eq!(row.table_alignments, vec![CellAlignment::Left, CellAlignment::Center, CellAlignment::Right]);
}

#[test]
fn las_citas_anidadas_conservan_profundidad() {
    let blocks = aplanar("> exterior\n>\n> > interior");
    let depths: Vec<_> = blocks.iter().map(|block| block.quote_depth).collect();
    assert!(depths.contains(&1), "falta cita exterior: {depths:?}");
    assert!(depths.contains(&2), "falta cita interior: {depths:?}");
}

fn text(t: &str, p: Sourcepos) -> MdNode {
    node(MdValue::Text(t.to_string()), p, Vec::new())
}

fn document(children: Vec<MdNode>) -> MdNode {
    node(MdValue::Other, pos(1, 1, 1, 1), children)
}

#[test]
fn un_arbol_a_mano_se_aplana_sin_el_parser() {
    let source = "hola **mundo**";
    let tree = document(vec![node(
        MdValue::Paragraph,
        pos(1, 1, 1, 14),
        vec![
            text("hola ", pos(1, 1, 1, 5)),
            node(MdValue::Strong, pos(1, 6, 1, 14), vec![text("mundo", pos(1, 8, 1, 12))]),
        ],
    )]);
    let index = SourceIndex::new(source);
    let outcome = blocks_from_tree(source, &index, &tree).expect("el arbol es valido");
    assert_eq!(outcome.degradation, None);
    assert_eq!(outcome.blocks.len(), 1);
    let block = &outcome.blocks[0];
    assert_eq!(block.text, "hola mundo");
    assert!(matches!(block.kind, Kind::Para));
    assert_eq!((block.source.start, block.source.end), (0, 14));
    assert_eq!(block.spans.len(), 1);
    assert_eq!((block.spans[0].start, block.spans[0].end), (5, 10));
    assert!(block.spans[0].style.strong);
    assert_eq!(&source[block.spans[0].source.start..block.spans[0].source.end], "mundo");
}

#[test]
fn una_lista_ordenada_numera_desde_su_comienzo() {
    let item = |t: &str| node(MdValue::Item, pos(1, 1, 1, 1), vec![node(MdValue::Paragraph, pos(1, 1, 1, 1), vec![text(t, pos(1, 1, 1, 1))])]);
    let tree = document(vec![node(MdValue::List { ordered: true, start: 7 }, pos(1, 1, 1, 1), vec![item("siete"), item("ocho")])]);
    let outcome = blocks_from_tree("x", &SourceIndex::new("x"), &tree).expect("el arbol es valido");
    let marcas: Vec<_> = outcome.blocks.iter().filter_map(|b| b.marker.clone()).collect();
    assert_eq!(marcas, vec![Marker::Text("7.".into()), Marker::Text("8.".into())]);
    assert!(outcome.blocks.iter().all(|b| matches!(b.kind, Kind::Item(1))));
}

#[test]
fn una_fila_a_mano_une_sus_celdas_con_separador() {
    let cell = |t: &str| node(MdValue::Other, pos(1, 1, 1, 1), vec![text(t, pos(1, 1, 1, 1))]);
    let tree = document(vec![node(
        MdValue::Table(vec![CellAlignment::Left, CellAlignment::Right]),
        pos(1, 1, 1, 1),
        vec![node(MdValue::TableRow(true), pos(1, 1, 1, 1), vec![cell("a"), node(MdValue::Other, pos(1, 1, 1, 1), vec![node(MdValue::Emph, pos(1, 1, 1, 1), vec![text("b", pos(1, 1, 1, 1))])])])],
    )]);
    let outcome = blocks_from_tree("x", &SourceIndex::new("x"), &tree).expect("el arbol es valido");
    let row = &outcome.blocks[0];
    assert_eq!(row.text, "a  |  b");
    assert!(matches!(row.kind, Kind::TableRow { header: true }));
    assert_eq!(row.table_alignments, vec![CellAlignment::Left, CellAlignment::Right]);
    assert_eq!(row.table_cells.len(), 2);
    assert_eq!((row.table_cells[1].spans[0].start, row.table_cells[1].spans[0].end), (0, 1));
    assert_eq!((row.spans[0].start, row.spans[0].end), (6, 7));
}

#[test]
fn una_pila_de_citas_a_mano_cae_en_la_vista_segura() {
    let mut tree = node(MdValue::Paragraph, pos(1, 1, 1, 1), vec![text("hondo", pos(1, 1, 1, 1))]);
    for _ in 0..(MAX_NEST as usize + 5) {
        tree = node(MdValue::BlockQuote, pos(1, 1, 1, 1), vec![tree]);
    }
    let tree = document(vec![tree]);
    let source = "hondo";
    let outcome = blocks_from_tree(source, &SourceIndex::new(source), &tree).expect("la vista segura es valida");
    assert_eq!(outcome.degradation, Some(Degradation::DepthLimit));
    assert_eq!(outcome.blocks.len(), 1);
    assert!(matches!(outcome.blocks[0].kind, Kind::Code));
    assert_eq!(outcome.blocks[0].text, "hondo");
}

#[test]
fn una_linea_extensa_no_consulta_el_arbol() {
    assert!(!has_overlong_line("corta\notra"));
    let source = "a".repeat(MAX_SAFE_LINE_BYTES + 1);
    assert!(has_overlong_line(&source));
    let tree = document(vec![node(MdValue::ThematicBreak, pos(1, 1, 1, 1), Vec::new())]);
    let outcome = blocks_from_tree(&source, &SourceIndex::new(&source), &tree).expect("la vista segura es valida");
    assert_eq!(outcome.degradation, Some(Degradation::LineLimit));
    assert!(outcome.blocks.iter().all(|b| matches!(b.kind, Kind::Code)));
}

#[test]
fn tab_recorrre_solo_los_enlaces_en_orden_del_documento() {
    let outcome = parse("[primero](https://example.test)\n\n![imagen](img.png)\n\n[segundo](notas/dos.md)").unwrap();
    let links = link_targets_in_document_order(&outcome.blocks);
    assert_eq!(links, vec![(0, 0), (2, 0)]);
    assert_eq!(next_link_target(&links, None, false), Some((0, 0)));
    assert_eq!(next_link_target(&links, Some((0, 0)), false), Some((2, 0)));
    assert_eq!(next_link_target(&links, Some((0, 0)), true), Some((2, 0)));
    assert_eq!(next_link_target(&[], None, false), None);
}

#[test]
fn seleccionar_todo_abarca_desde_el_primer_hasta_el_ultimo_bloque() {
    let blocks = aplanar("primer bloque\n\nsegundo bloque");
    let selection = DocumentSelection {
        anchor: BlockCursor { block: 0, offset: 0 },
        focus: BlockCursor { block: blocks.len() - 1, offset: blocks.last().expect("hay bloques").text.len() },
    };
    assert_eq!(selection.range_for(0, blocks[0].text.len()), Some((0, 13)));
    assert_eq!(selection.range_for(1, blocks[1].text.len()), Some((0, 14)));
}

#[test]
fn copiar_vista_conserva_el_texto_de_una_seleccion_entre_bloques() {
    let blocks = aplanar("primero\n\nsegundo\n\ntercero");
    let selection = DocumentSelection { anchor: BlockCursor { block: 0, offset: 3 }, focus: BlockCursor { block: 2, offset: 4 } };
    assert_eq!(selection.rendered_text(&blocks).as_deref(), Some("mero\nsegundo\nterc"));
}

#[test]
fn copiar_vista_completa_conserva_la_estructura_legible() {
    let source = "- primero\n3. tercero\n- [x] terminado\n> una cita\n";
    let blocks = aplanar(source);
    let selection = DocumentSelection {
        anchor: BlockCursor { block: 0, offset: 0 },
        focus: BlockCursor { block: blocks.len() - 1, offset: blocks.last().unwrap().text.len() },
    };
    assert_eq!(selection.rendered_text(&blocks).as_deref(), Some("• primero\n3. tercero\n[x] terminado\n> una cita"));
}

#[test]
fn copiar_markdown_toma_bloques_fuente_completos() {
    let source = "# titulo\n\n**primero**\n\nsegundo\n";
    let blocks = aplanar(source);
    let selection = DocumentSelection { anchor: BlockCursor { block: 1, offset: 3 }, focus: BlockCursor { block: 2, offset: 2 } };
    assert_eq!(selection.source_blocks(source, &blocks).as_deref(), Some("**primero**\n\nsegundo"));
}

#[test]
fn una_seleccion_vacia_no_sobrescribe_el_portapapeles() {
    let blocks = aplanar("texto");
    let selection = DocumentSelection::collapsed(BlockCursor { block: 0, offset: 2 });
    assert_eq!(selection.rendered_text(&blocks), None);
    assert_eq!(selection.source_blocks("texto", &blocks).as_deref(), Some("texto"));
}

#[test]
fn un_archivo_que_no_es_markdown_se_abre_como_texto_inerte() {
    let fuente = "# no es un titulo\n*ni enfasis*";
    let vista = document_view("notas/registro.txt", fuente).unwrap();
    assert_eq!(vista.degradation, Some(Degradation::TextOnly));
    assert!(!vista.blocks.is_empty());
    assert!(vista.blocks.iter().all(|b| b.kind == Kind::Code));
    assert!(vista.blocks[0].text.starts_with("# no es un titulo"));

    let markdown = document_view("notas/Diario.MD", fuente).unwrap();
    assert_eq!(markdown.degradation, None);
    assert_eq!(markdown.blocks.len(), parse_blocks(fuente).unwrap().blocks.len());
    assert_eq!(markdown.blocks[0].kind, Kind::Heading(1));
}
