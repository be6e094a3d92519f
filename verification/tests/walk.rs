use visor_md::vfs::PathComponent;
use visor_md::walk::{first_visit, is_within_root, walk_step, EntryKind, WalkAction, WalkEntry};
use visor_md::workspace::{WorkspaceIndex, WorkspaceLimits};

fn parts(path: &str) -> Vec<PathComponent> {
    let mut v = vec![PathComponent::RootDir];
    v.extend(path.split('/').filter(|s| !s.is_empty()).map(|s| PathComponent::Normal(s.to_string())));
    v
}

fn entry(name: &str, kind: EntryKind, relative: &str, bytes: u64) -> WalkEntry {
    WalkEntry {
        name: name.to_string(),
        inside_root: Some(true),
        kind: Some(kind),
        relative_path: Some(relative.to_string()),
        byte_len: Some(bytes),
    }
}

#[test]
fn solo_lo_que_empieza_por_la_raiz_esta_dentro() {
    assert!(is_within_root(&parts("/boveda"), &parts("/boveda/notas/a.md")));
    assert!(is_within_root(&parts("/boveda"), &parts("/boveda")));
    assert!(!is_within_root(&parts("/boveda"), &parts("/boveda-falsa/a.md")));
    assert!(!is_within_root(&parts("/boveda/notas"), &parts("/boveda")));
    assert!(!is_within_root(
        &[PathComponent::Prefix("C:".to_string()), PathComponent::RootDir],
        &[PathComponent::Prefix("D:".to_string()), PathComponent::RootDir]
    ));
}

#[test]
fn cada_entrada_recibe_su_decision() {
    let limits = WorkspaceLimits { max_files: 1, max_note_bytes: 10, max_scanned_bytes: 15, max_indexed_content_bytes: 100 };
    let mut index = WorkspaceIndex::default();
    assert_eq!(walk_step(&mut index, &entry(".obsidian", EntryKind::Directory, ".obsidian", 0), limits), WalkAction::Ignore);
    assert_eq!(walk_step(&mut index, &entry("sub", EntryKind::Directory, "sub", 0), limits), WalkAction::Descend);
    assert_eq!(walk_step(&mut index, &entry("a.txt", EntryKind::File, "a.txt", 3), limits), WalkAction::Ignore);
    let mut fuera = entry("b.md", EntryKind::File, "b.md", 3);
    fuera.inside_root = Some(false);
    assert_eq!(walk_step(&mut index, &fuera, limits), WalkAction::Skipped);
    assert_eq!(index.skipped, 1);
    assert_eq!(walk_step(&mut index, &entry("grande.md", EntryKind::File, "grande.md", 11), limits), WalkAction::Skipped);
    assert_eq!(index.skipped, 2);
    assert_eq!(walk_step(&mut index, &entry("c.md", EntryKind::File, "c.md", 9), limits), WalkAction::Read);
    assert_eq!(index.scanned_bytes, 9);
    assert_eq!(walk_step(&mut index, &entry("d.md", EntryKind::File, "d.md", 9), limits), WalkAction::Stop);
    assert!(index.scan_truncated);
}

#[test]
fn un_directorio_se_visita_una_sola_vez() {
    let mut visited = Vec::new();
    assert!(first_visit(&mut visited, "/boveda"));
    assert!(first_visit(&mut visited, "/boveda/sub"));
    assert!(!first_visit(&mut visited, "/boveda"));
    assert_eq!(visited.len(), 2);
}
