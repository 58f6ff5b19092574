//! What the program is asked to do.

use vstd::prelude::*;

verus! {

/// The five things a caller can ask for.
#[derive(Clone, Copy, Debug, PartialEq, Eq, Structural)]
pub enum Mode {
    Help,
    Version,
    Interactive,
    Encrypt,
    Decrypt,
}

/// The mode that wins when several are asked for at once: help before
/// version before interactive before encrypt before decrypt, and help
/// when none is asked for.
pub open spec fn mode_of(
    help: bool,
    version: bool,
    interactive: bool,
    encrypt: bool,
    decrypt: bool,
) -> Mode {
    if help {
        Mode::Help
    } else if version {
        Mode::Version
    } else if interactive {
        Mode::Interactive
    } else if encrypt {
        Mode::Encrypt
    } else if decrypt {
        Mode::Decrypt
    } else {
        Mode::Help
    }
}

/// Picks the mode from the options that are present.
pub fn get_mode(
    help: bool,
    version: bool,
    interactive: bool,
    encrypt: bool,
    decrypt: bool,
) -> (mode: Mode)
    ensures
        mode == mode_of(help, version, interactive, encrypt, decrypt),
        mode == Mode::Decrypt <==> decrypt && !help && !version && !interactive && !encrypt,
        mode == Mode::Encrypt <==> encrypt && !help && !version && !interactive,
        mode == Mode::Interactive <==> interactive && !help && !version,
        mode == Mode::Version <==> version && !help,
{
    if help {
        return Mode::Help;
    }
    if version {
        return Mode::Version;
    }
    if interactive {
        return Mode::Interactive;
    }
    if encrypt {
        return Mode::Encrypt;
    }
    if decrypt {
        return Mode::Decrypt;
    }
    Mode::Help
}

} // verus!
