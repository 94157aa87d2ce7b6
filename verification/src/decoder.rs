//! The account-decoder interface: which on-chain programs have parsable
//! accounts, and the extra context a parser may need. The per-program
//! byte-format decoders themselves are external collaborators.

use vstd::prelude::*;

verus! {

/// A program whose accounts can be decoded into a readable form.
#[derive(Debug, Clone, Copy, PartialEq, Eq)]
pub enum ParsableAccount {
    BpfUpgradeableLoader,
    Config,
    Nonce,
    SplToken,
    Stake,
    Sysvar,
    Vote,
    SophonAccount,
    SophonRelyingParty,
}

/// The kebab-case name a parsed account reports for its program.
pub open spec fn spec_program_name(p: ParsableAccount) -> Seq<char> {
    match p {
        ParsableAccount::BpfUpgradeableLoader => "bpf-upgradeable-loader"@,
        ParsableAccount::Config => "config"@,
        ParsableAccount::Nonce => "nonce"@,
        ParsableAccount::SplToken => "spl-token"@,
        ParsableAccount::Stake => "stake"@,
        ParsableAccount::Sysvar => "sysvar"@,
        ParsableAccount::Vote => "vote"@,
        ParsableAccount::SophonAccount => "sophon-account"@,
        ParsableAccount::SophonRelyingParty => "sophon-relying-party"@,
    }
}

impl ParsableAccount {
    /// The program's kebab-case name.
    pub fn name(&self) -> (r: &'static str)
        ensures
            r@ == spec_program_name(*self),
    {
        match self {
            ParsableAccount::BpfUpgradeableLoader => "bpf-upgradeable-loader",
            ParsableAccount::Config => "config",
            ParsableAccount::Nonce => "nonce",
            ParsableAccount::SplToken => "spl-token",
            ParsableAccount::Stake => "stake",
            ParsableAccount::Sysvar => "sysvar",
            ParsableAccount::Vote => "vote",
            ParsableAccount::SophonAccount => "sophon-account",
            ParsableAccount::SophonRelyingParty => "sophon-relying-party",
        }
    }
}

/// Extra context needed to decode some account kinds.
pub struct AccountAdditionalData {
    pub spl_token_decimals: Option<u8>,
}

impl Default for AccountAdditionalData {
    /// No extra context.
    fn default() -> (r: AccountAdditionalData)
        ensures
            r.spl_token_decimals is None,
    {
        AccountAdditionalData { spl_token_decimals: None }
    }
}

} // verus!
