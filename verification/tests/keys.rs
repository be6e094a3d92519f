use visor_md::keys::{
    direct_source_text, key_route, line_break_text, panel_key_command, reading_key_command,
    source_key_command, step_match, Key, KeyRoute, LineEndings, Modifiers, PanelCommand,
    ReadingCommand, SourceCommand,
};

fn mods(control: bool, shift: bool) -> Modifiers {
    Modifiers {
        control,
        shift,
        alt: false,
        logo: false,
    }
}

#[test]
fn los_atajos_no_se_escriben_como_texto() {
    assert_eq!(direct_source_text(mods(false, false), Key::Other, Some("á")), Some("á"));
    assert_eq!(direct_source_text(mods(true, false), Key::S, Some("s")), None);
    assert_eq!(direct_source_text(mods(false, false), Key::Enter, Some("\r")), None);
    assert_eq!(direct_source_text(mods(false, false), Key::Other, Some("\u{7f}")), None);
    assert_eq!(direct_source_text(mods(false, false), Key::Other, Some("")), None);
}

#[test]
fn cada_tecla_tiene_su_orden() {
    assert_eq!(
        source_key_command(true, false, Key::F, mods(true, true), None),
        SourceCommand::OpenWorkspaceSearch
    );
    assert_eq!(
        source_key_command(true, false, Key::S, mods(true, false), Some("s")),
        SourceCommand::Save
    );
    assert_eq!(
        source_key_command(true, false, Key::S, mods(true, true), None),
        SourceCommand::SaveAs
    );
    assert_eq!(
        source_key_command(true, true, Key::Other, mods(false, false), Some("x")),
        SourceCommand::InsertText
    );
    assert_eq!(
        source_key_command(true, true, Key::Backspace, mods(false, false), None),
        SourceCommand::Ignore
    );
    assert_eq!(
        source_key_command(true, false, Key::Enter, mods(false, true), Some("\r")),
        SourceCommand::InsertLineBreak { hard: true }
    );
    assert_eq!(
        source_key_command(true, false, Key::ArrowDown, mods(false, true), None),
        SourceCommand::MoveLine {
            down: true,
            extend: true
        }
    );
    assert_eq!(
        source_key_command(false, false, Key::Z, mods(true, false), None),
        SourceCommand::Ignore
    );
    assert_eq!(
        source_key_command(true, false, Key::Z, mods(true, false), None),
        SourceCommand::Undo
    );
    assert_eq!(line_break_text(LineEndings::CrLf, true), "\\\r\n");
    assert_eq!(line_break_text(LineEndings::Mixed, false), "\n");
}

#[test]
fn los_atajos_de_lectura_distinguen_control_y_mayusculas() {
    assert_eq!(reading_key_command(true, false, Key::F, mods(true, true)), ReadingCommand::OpenWorkspaceSearch);
    assert_eq!(reading_key_command(true, false, Key::F, mods(true, false)), ReadingCommand::OpenDocumentSearch);
    assert_eq!(reading_key_command(true, false, Key::F, mods(false, false)), ReadingCommand::Ignore);
    assert_eq!(reading_key_command(true, false, Key::O, mods(true, true)), ReadingCommand::ChooseWorkspace);
    assert_eq!(reading_key_command(true, false, Key::O, mods(true, false)), ReadingCommand::ChooseDocument);
    assert_eq!(reading_key_command(true, false, Key::S, mods(true, true)), ReadingCommand::SaveAs);
    assert_eq!(reading_key_command(true, false, Key::B, mods(true, true)), ReadingCommand::ShowBacklinks);
    assert_eq!(reading_key_command(true, false, Key::B, mods(true, false)), ReadingCommand::Ignore);
    assert_eq!(reading_key_command(true, false, Key::Tab, mods(false, true)), ReadingCommand::MoveLinkFocus { backwards: true });
    assert_eq!(
        reading_key_command(true, false, Key::Home, mods(true, true)),
        ReadingCommand::MoveBoundary { end: false, document: true, extend: true }
    );
    assert_eq!(reading_key_command(true, false, Key::C, mods(true, true)), ReadingCommand::Copy { markdown: true });
    assert_eq!(reading_key_command(true, false, Key::T, mods(false, false)), ReadingCommand::ToggleTheme);
    assert_eq!(reading_key_command(true, true, Key::T, mods(false, false)), ReadingCommand::Ignore);
    assert_eq!(reading_key_command(false, false, Key::F2, mods(false, false)), ReadingCommand::Ignore);
}

#[test]
fn los_paneles_abiertos_reciben_las_teclas_primero() {
    assert_eq!(key_route(true, true, true, true), KeyRoute::WorkspaceSearch);
    assert_eq!(key_route(false, true, true, true), KeyRoute::Backlinks);
    assert_eq!(key_route(false, false, true, true), KeyRoute::DocumentSearch);
    assert_eq!(key_route(false, false, false, true), KeyRoute::SourceEditor);
    assert_eq!(key_route(false, false, false, false), KeyRoute::Reading);
    assert_eq!(panel_key_command(KeyRoute::Backlinks, true, false, Key::Backspace, false), PanelCommand::Ignore);
    assert_eq!(panel_key_command(KeyRoute::WorkspaceSearch, true, false, Key::Backspace, false), PanelCommand::Erase);
    assert_eq!(panel_key_command(KeyRoute::DocumentSearch, true, false, Key::Enter, true), PanelCommand::Previous);
    assert_eq!(panel_key_command(KeyRoute::DocumentSearch, true, false, Key::ArrowDown, false), PanelCommand::Ignore);
    assert_eq!(panel_key_command(KeyRoute::Backlinks, true, false, Key::Enter, false), PanelCommand::Open);
}

#[test]
fn recorrer_coincidencias_da_la_vuelta() {
    assert_eq!(step_match(0, 0, 1), None);
    assert_eq!(step_match(2, 3, 1), Some(0));
    assert_eq!(step_match(0, 3, -1), Some(2));
    assert_eq!(step_match(1, 3, -1), Some(0));
    assert_eq!(step_match(7, 3, 0), Some(1));
    assert_eq!(step_match(usize::MAX, usize::MAX, -1), Some(usize::MAX - 1));
}
