use visor_md::vfs::{validate_relative_reference, PathComponent, VfsError};

fn normal(s: &str) -> PathComponent {
    PathComponent::Normal(s.to_string())
}

#[test]
fn rechaza_escapes_lexicos() {
    assert_eq!(validate_relative_reference(&[]), Err(VfsError::EmptyPath));
    assert_eq!(
        validate_relative_reference(&[PathComponent::RootDir, normal("etc")]),
        Err(VfsError::AbsoluteOrPrefixedPath)
    );
    assert_eq!(
        validate_relative_reference(&[PathComponent::Prefix("C:".to_string()), normal("x")]),
        Err(VfsError::AbsoluteOrPrefixedPath)
    );
    assert_eq!(
        validate_relative_reference(&[normal("a"), PathComponent::ParentDir, normal("b")]),
        Err(VfsError::ParentTraversal)
    );
    assert_eq!(
        validate_relative_reference(&[normal("nota.md:secreto")]),
        Err(VfsError::AlternateDataStream)
    );
}

#[test]
fn acepta_referencias_relativas_contenidas() {
    assert_eq!(
        validate_relative_reference(&[PathComponent::CurDir, normal("img"), normal("a.png")]),
        Ok(())
    );
    assert_eq!(
        VfsError::ParentTraversal.message(),
        "la referencia intenta salir de la carpeta autorizada"
    );
}
