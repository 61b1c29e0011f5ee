//! The library's error type.

use vstd::prelude::*;

use crate::text;
use crate::text::decimal;

verus! {

/// The standard library's input/output error, carried through unread.
#[verifier::external_type_specification]
#[verifier::external_body]
pub struct ExIoError(std::io::Error);

#[derive(Debug)]
pub enum Error {
    InvalidTarget { input: String, reason: String },
    TargetTooLarge { prefix: u8, hosts: u64 },
    NoLocalInterface,
    Io(std::io::Error),
}

impl Error {
    /// The message shown to the user.
    ///
    /// An input/output error is introduced as such; the words that follow come
    /// from the operating system.
    pub fn to_string(&self) -> (s: String)
        ensures
            match *self {
                Error::InvalidTarget { input, reason } => s@ == "cible invalide « "@ + input@
                    + " » : "@ + reason@,
                Error::TargetTooLarge { prefix, hosts } => s@ == "plage trop large : /"@
                    + text::dec(prefix as nat) + " représente "@ + text::dec(hosts as nat)
                    + " hôtes. Relancez avec --yes si c'est bien l'intention."@,
                Error::NoLocalInterface => s@
                    == "aucune interface réseau IPv4 utilisable n'a été détectée"@,
                Error::Io(error) => exists|words: String| #[trigger]
                    vstd::string::to_string_from_display_ensures(&error, words) && s@
                        == "erreur d'entrée/sortie : "@ + words@,
            },
    {
        match self {
            Error::InvalidTarget { input, reason } => {
                let mut s = "cible invalide « ".to_owned();
                s.append(input.as_str());
                s.append(" » : ");
                s.append(reason.as_str());
                s
            },
            Error::TargetTooLarge { prefix, hosts } => {
                let mut s = "plage trop large : /".to_owned();
                s.append(decimal(*prefix as u64).as_str());
                s.append(" représente ");
                s.append(decimal(*hosts).as_str());
                s.append(" hôtes. Relancez avec --yes si c'est bien l'intention.");
                s
            },
            Error::NoLocalInterface => {
                "aucune interface réseau IPv4 utilisable n'a été détectée".to_owned()
            },
            Error::Io(error) => {
                let mut s = "erreur d'entrée/sortie : ".to_owned();
                let words = error.to_string();
                s.append(words.as_str());
                s
            },
        }
    }
}

impl From<std::io::Error> for Error {
    fn from(error: std::io::Error) -> (r: Self) {
        Error::Io(error)
    }
}

impl vstd::std_specs::convert::FromSpecImpl<std::io::Error> for Error {
    open spec fn obeys_from_spec() -> bool {
        true
    }

    open spec fn from_spec(error: std::io::Error) -> Self {
        Error::Io(error)
    }
}

} // verus!
