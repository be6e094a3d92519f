//! Relative references to secondary files inside a workspace folder that
//! the person opened. Markdown content never reaches the file system by
//! itself: a reference is examined component by component and refused when
//! it is absolute, prefixed, climbs out of the folder or names an alternate
//! data stream. Resolving it on disk, and confirming that the result stays
//! inside the folder, is left to the caller.
use vstd::prelude::*;
use crate::strings::{contains, contains_seq};

verus! {

/// One component of a path, as `Path::components` yields it.
#[derive(Clone, Debug, PartialEq, Eq)]
pub enum PathComponent {
    /// A Windows prefix such as `C:` or `\\server\share`.
    Prefix(String),
    RootDir,
    CurDir,
    ParentDir,
    /// An ordinary segment, in lossy UTF-8.
    Normal(String),
}

#[derive(Clone, Copy, Debug, PartialEq, Eq, Structural)]
pub enum VfsError {
    RootUnavailable,
    NotDirectory,
    EmptyPath,
    AbsoluteOrPrefixedPath,
    ParentTraversal,
    AlternateDataStream,
    Missing,
    OutsideRoot,
    /// Resolving failed for another reason of the system.
    Io,
}

pub open spec fn vfs_message(e: VfsError) -> Seq<char> {
    match e {
        VfsError::RootUnavailable => "no se pudo abrir la carpeta elegida"@,
        VfsError::NotDirectory => "la ruta elegida no es una carpeta"@,
        VfsError::EmptyPath => "la referencia no declara una ruta utilizable"@,
        VfsError::AbsoluteOrPrefixedPath => "las referencias secundarias no pueden ser absolutas ni UNC"@,
        VfsError::ParentTraversal => "la referencia intenta salir de la carpeta autorizada"@,
        VfsError::AlternateDataStream => "la referencia contiene un stream alternativo no permitido"@,
        VfsError::Missing => "el archivo referido no existe"@,
        VfsError::OutsideRoot => "la referencia termina fuera de la carpeta autorizada"@,
        VfsError::Io => "no se pudo resolver el archivo referido"@,
    }
}

impl VfsError {
    /// What the person is told.
    pub fn message(self) -> (m: &'static str)
        ensures
            m@ == vfs_message(self),
    {
        match self {
            VfsError::RootUnavailable => "no se pudo abrir la carpeta elegida",
            VfsError::NotDirectory => "la ruta elegida no es una carpeta",
            VfsError::EmptyPath => "la referencia no declara una ruta utilizable",
            VfsError::AbsoluteOrPrefixedPath => "las referencias secundarias no pueden ser absolutas ni UNC",
            VfsError::ParentTraversal => "la referencia intenta salir de la carpeta autorizada",
            VfsError::AlternateDataStream => "la referencia contiene un stream alternativo no permitido",
            VfsError::Missing => "el archivo referido no existe",
            VfsError::OutsideRoot => "la referencia termina fuera de la carpeta autorizada",
            VfsError::Io => "no se pudo resolver el archivo referido",
        }
    }
}

/// What is wrong with one component, if anything.
pub open spec fn component_problem(c: PathComponent) -> Option<VfsError> {
    match c {
        PathComponent::Prefix(_) | PathComponent::RootDir => Some(VfsError::AbsoluteOrPrefixedPath),
        PathComponent::ParentDir => Some(VfsError::ParentTraversal),
        PathComponent::Normal(segment) => if contains_seq(segment@, ":"@) {
            Some(VfsError::AlternateDataStream)
        } else {
            None
        },
        PathComponent::CurDir => None,
    }
}

/// The first problem among the first `n` components.
pub open spec fn components_problem(cs: Seq<PathComponent>, n: nat) -> Option<VfsError>
    decreases n,
{
    if n == 0 {
        None
    } else {
        match components_problem(cs, (n - 1) as nat) {
            Some(e) => Some(e),
            None => component_problem(cs[n - 1]),
        }
    }
}

proof fn lemma_components_problem_sticks(cs: Seq<PathComponent>, m: nat, n: nat)
    requires
        m <= n,
        components_problem(cs, m) is Some,
    ensures
        components_problem(cs, n) == components_problem(cs, m),
    decreases n - m,
{
    if m < n {
        lemma_components_problem_sticks(cs, m, (n - 1) as nat);
    }
}

/// Judges a reference by its components (an empty path has none): it must
/// stay relative and inside the folder, and name no alternate data stream.
pub fn validate_relative_reference(components: &[PathComponent]) -> (r: Result<(), VfsError>)
    ensures
        components@.len() == 0 ==> r == Err::<(), VfsError>(VfsError::EmptyPath),
        components@.len() > 0 ==> match components_problem(components@, components@.len()) {
            Some(e) => r == Err::<(), VfsError>(e),
            None => r is Ok,
        },
{
    if components.len() == 0 {
        return Err(VfsError::EmptyPath);
    }
    let mut i: usize = 0;
    while i < components.len()
        invariant
            i <= components@.len(),
            components_problem(components@, i as nat) is None,
        decreases components@.len() - i,
    {
        let problem = match &components[i] {
            PathComponent::Prefix(_) | PathComponent::RootDir => Some(VfsError::AbsoluteOrPrefixedPath),
            PathComponent::ParentDir => Some(VfsError::ParentTraversal),
            PathComponent::Normal(segment) => if contains(segment.as_str(), ":") {
                Some(VfsError::AlternateDataStream)
            } else {
                None
            },
            PathComponent::CurDir => None,
        };
        match problem {
            Some(e) => {
                proof {
                    lemma_components_problem_sticks(components@, (i + 1) as nat, components@.len());
                }
                return Err(e);
            },
            None => {},
        }
        i = i + 1;
    }
    Ok(())
}

} // verus!
