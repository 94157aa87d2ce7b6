use evm_state::decoder::AccountAdditionalData;
use evm_state::decoder::ParsableAccount;

#[test]
fn program_names_are_kebab_case() {
    assert_eq!(ParsableAccount::Vote.name(), "vote");
    assert_eq!(ParsableAccount::Nonce.name(), "nonce");
    assert_eq!(ParsableAccount::BpfUpgradeableLoader.name(), "bpf-upgradeable-loader");
    assert_eq!(ParsableAccount::SplToken.name(), "spl-token");
    assert_eq!(ParsableAccount::SophonRelyingParty.name(), "sophon-relying-party");
}

#[test]
fn additional_data_defaults_to_nothing() {
    let d = AccountAdditionalData::default();
    assert!(d.spl_token_decimals.is_none());
}
