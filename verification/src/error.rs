//! Errors of the core. The library never panics: every failure arrives through here.

use vstd::prelude::*;

use crate::config::{module_name, Module};
use crate::text::{decimal, push_decimal, push_str};

verus! {

/// Error of the GugolPi core.
#[derive(Debug, Clone, PartialEq, Eq)]
#[non_exhaustive]
pub enum Error {
    /// The configuration received is contradictory or out of range.
    InvalidConfig(String),
    /// The size text names no size of the module.
    UnknownSize {
        /// Text received.
        text: String,
        /// Module it applied to.
        module: Module,
    },
    /// Not enough memory for the requested computation.
    InsufficientMemory {
        /// Bytes needed.
        required: u64,
        /// Bytes available.
        available: u64,
    },
    /// The computation finished but the result does not verify.
    Verification(String),
    /// The run was cancelled from outside.
    Cancelled,
    /// The module exists in the specification but not in this build.
    Unavailable(Module),
    /// A file could not be read or written.
    Io {
        /// Path involved.
        path: String,
        /// Cause, as text.
        message: String,
    },
    /// Internal failure that should not happen (a thread died, an invariant broke).
    Internal(String),
}

/// The message of an error, as the command line and the GUI show it.
pub open spec fn error_message(e: Error) -> Seq<char> {
    match e {
        Error::InvalidConfig(m) => "configuración no válida: "@ + m@,
        Error::UnknownSize { text, module } => "tamaño desconocido «"@ + text@
            + "» para el módulo "@ + module_name(module),
        Error::InsufficientMemory { required, available } => "memoria insuficiente: se necesitan "@
            + decimal(required as nat) + " bytes y hay "@ + decimal(available as nat)
            + " disponibles"@,
        Error::Verification(m) => "verificación fallida: "@ + m@,
        Error::Cancelled => "ejecución cancelada"@,
        Error::Unavailable(module) => "el módulo "@ + module_name(module)
            + " no está disponible en esta build"@,
        Error::Io { path, message } => "no se pudo acceder a "@ + path@ + ": "@ + message@,
        Error::Internal(m) => "error interno: "@ + m@,
    }
}

impl Error {
    /// The message of the error.
    pub fn message(&self) -> (r: String)
        ensures
            r@ == error_message(*self),
    {
        let mut t = String::new();
        match self {
            Error::InvalidConfig(m) => {
                push_str(&mut t, "configuración no válida: ");
                push_str(&mut t, m.as_str());
            },
            Error::UnknownSize { text, module } => {
                push_str(&mut t, "tamaño desconocido «");
                push_str(&mut t, text.as_str());
                push_str(&mut t, "» para el módulo ");
                push_str(&mut t, module.name());
            },
            Error::InsufficientMemory { required, available } => {
                push_str(&mut t, "memoria insuficiente: se necesitan ");
                push_decimal(&mut t, *required);
                push_str(&mut t, " bytes y hay ");
                push_decimal(&mut t, *available);
                push_str(&mut t, " disponibles");
            },
            Error::Verification(m) => {
                push_str(&mut t, "verificación fallida: ");
                push_str(&mut t, m.as_str());
            },
            Error::Cancelled => {
                push_str(&mut t, "ejecución cancelada");
            },
            Error::Unavailable(module) => {
                push_str(&mut t, "el módulo ");
                push_str(&mut t, module.name());
                push_str(&mut t, " no está disponible en esta build");
            },
            Error::Io { path, message } => {
                push_str(&mut t, "no se pudo acceder a ");
                push_str(&mut t, path.as_str());
                push_str(&mut t, ": ");
                push_str(&mut t, message.as_str());
            },
            Error::Internal(m) => {
                push_str(&mut t, "error interno: ");
                push_str(&mut t, m.as_str());
            },
        }
        proof {
            assert(t@ =~= error_message(*self));
        }
        t
    }
}

} // verus!
