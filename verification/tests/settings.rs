//! Settings of a run and the texts that they are read from.
use o1zkvm::settings::{
    choose_proof_type, choose_run, parse_bool, parse_strategy, parse_u64, parse_whitelist,
    NetworkRequest, NetworkVars, ProofType, Reason, Run, Setting, Strategy,
};
use o1zkvm::text::{is_white_space, parse_decimal, same_text, split_filled, trim, NumberError};

fn text(s: &str) -> Option<String> {
    Some(s.to_string())
}

fn no_vars() -> NetworkVars {
    NetworkVars {
        fulfillment_strategy: None,
        max_price_per_pgu: None,
        timeout_secs: None,
        skip_simulation: None,
        cycle_limit: None,
        gas_limit: None,
        whitelist: None,
    }
}

#[test]
fn runs_prove_only_when_asked() {
    assert_eq!(choose_run(false, None), Run::Execute);
    assert_eq!(choose_run(false, Some("network")), Run::Execute);
    assert_eq!(choose_run(true, None), Run::ProveFromEnv);
    assert_eq!(choose_run(true, Some("cpu")), Run::ProveFromEnv);
    assert_eq!(choose_run(true, Some("cuda")), Run::ProveFromEnv);
    assert_eq!(choose_run(true, Some("Network")), Run::ProveFromEnv);
    assert_eq!(choose_run(true, Some("network")), Run::ProveOnNetwork);
}

#[test]
fn proof_types_by_name() {
    assert_eq!(choose_proof_type(None), Some(ProofType::Core));
    assert_eq!(choose_proof_type(Some("core")), Some(ProofType::Core));
    assert_eq!(choose_proof_type(Some("compressed")), Some(ProofType::Compressed));
    assert_eq!(choose_proof_type(Some("plonk")), Some(ProofType::Plonk));
    assert_eq!(choose_proof_type(Some("groth16")), Some(ProofType::Groth16));
    assert_eq!(choose_proof_type(Some("PLONK")), None);
    assert_eq!(choose_proof_type(Some("")), None);
}

#[test]
fn strategies_by_name_in_any_case() {
    assert_eq!(parse_strategy(&None).unwrap(), None);
    assert_eq!(parse_strategy(&text("auction")).unwrap(), Some(Strategy::Auction));
    assert_eq!(parse_strategy(&text("HOSTED")).unwrap(), Some(Strategy::Hosted));
    assert_eq!(parse_strategy(&text("Reserved")).unwrap(), Some(Strategy::Reserved));
    let e = parse_strategy(&text("Lottery")).unwrap_err();
    assert_eq!(e.setting, Setting::FulfillmentStrategy);
    assert_eq!(e.given, "lottery");
    assert_eq!(e.reason, Reason::UnknownStrategy);
}

#[test]
fn truth_values_by_name_in_any_case() {
    for s in ["true", "TRUE", "1", "yes", "Yes"] {
        assert_eq!(parse_bool(Setting::SkipSimulation, &text(s)).unwrap(), Some(true));
    }
    for s in ["false", "False", "0", "no", "NO"] {
        assert_eq!(parse_bool(Setting::SkipSimulation, &text(s)).unwrap(), Some(false));
    }
    assert_eq!(parse_bool(Setting::SkipSimulation, &None).unwrap(), None);
    let e = parse_bool(Setting::SkipSimulation, &text("MAYBE\u{c4}")).unwrap_err();
    assert_eq!(e.given, "maybe\u{c4}");
    assert_eq!(e.reason, Reason::NotBool);
    assert_eq!(e.setting.variable(), "SP1_SKIP_SIMULATION");
}

#[test]
fn numbers_as_std_reads_them() {
    let cases = [
        "0",
        "7",
        "+7",
        "00012",
        "18446744073709551615",
        "+18446744073709551615",
        "18446744073709551616",
        "99999999999999999999999x",
        "1844674407370955161x",
        "",
        "+",
        "-",
        "-1",
        "++1",
        " 1",
        "1 ",
        "1_000",
        "0x10",
        "\u{663}",
    ];
    for s in cases {
        match s.parse::<u64>() {
            Ok(v) => assert_eq!(parse_decimal(s), Ok(v), "{s:?}"),
            Err(e) => assert_eq!(parse_decimal(s).unwrap_err().message(), e.to_string(), "{s:?}"),
        }
    }
    assert_eq!(parse_decimal(""), Err(NumberError::Empty));
    assert_eq!(parse_decimal("1a"), Err(NumberError::InvalidDigit));
    assert_eq!(parse_decimal("18446744073709551616"), Err(NumberError::TooLarge));
}

#[test]
fn numbers_of_settings() {
    assert_eq!(parse_u64(Setting::CycleLimit, &None).unwrap(), None);
    assert_eq!(parse_u64(Setting::CycleLimit, &text("250")).unwrap(), Some(250));
    let e = parse_u64(Setting::GasLimit, &text("A lot")).unwrap_err();
    assert_eq!(e.setting, Setting::GasLimit);
    assert_eq!(e.given, "A lot");
    assert_eq!(e.reason, Reason::NotU64(NumberError::InvalidDigit));
}

#[test]
fn variables_by_setting() {
    assert_eq!(Setting::FulfillmentStrategy.variable(), "SP1_FULFILLMENT_STRATEGY");
    assert_eq!(Setting::MaxPricePerPgu.variable(), "SP1_MAX_PRICE_PER_PGU");
    assert_eq!(Setting::TimeoutSecs.variable(), "SP1_TIMEOUT_SECS");
    assert_eq!(Setting::CycleLimit.variable(), "SP1_CYCLE_LIMIT");
    assert_eq!(Setting::GasLimit.variable(), "SP1_GAS_LIMIT");
}

#[test]
fn white_space_is_unicode_s() {
    for u in 0..=0x10ffffu32 {
        if let Some(c) = char::from_u32(u) {
            assert_eq!(is_white_space(c), c.is_whitespace(), "{u:#x}");
        }
    }
}

#[test]
fn trimming_takes_white_space_off_both_ends() {
    for s in ["", " ", "a", " a", "a ", "\t a b \n", "\u{2003}x\u{3000}", "a\u{200b}"] {
        assert_eq!(trim(s), s.trim());
        assert_eq!(trim(trim(s)), trim(s));
    }
}

#[test]
fn texts_are_the_same_or_not() {
    assert!(same_text("core", "core"));
    assert!(!same_text("core", "Core"));
    assert!(!same_text("core", "cor"));
}

#[test]
fn splitting_keeps_what_is_filled() {
    assert_eq!(split_filled("a,b"), vec!["a", "b"]);
    assert_eq!(split_filled(" a , , b ,"), vec!["a", "b"]);
    assert_eq!(split_filled("0x1,\u{e4} \u{e4},0x2"), vec!["0x1", "\u{e4} \u{e4}", "0x2"]);
    assert!(split_filled(",,").is_empty());
}

#[test]
fn blank_whitelists_are_left_out() {
    assert_eq!(parse_whitelist(&None), None);
    assert_eq!(parse_whitelist(&text("")), None);
    assert_eq!(parse_whitelist(&text(" \t")), None);
    assert_eq!(parse_whitelist(&text(" , ")), Some(vec![]));
    assert_eq!(
        parse_whitelist(&text(" 0xaa, 0xbb ")),
        Some(vec!["0xaa".to_string(), "0xbb".to_string()])
    );
}

#[test]
fn requests_follow_the_settings() {
    let empty = NetworkRequest::from_vars(&no_vars()).unwrap();
    assert_eq!(empty.strategy, None);
    assert_eq!(empty.max_price_per_pgu, None);
    assert_eq!(empty.whitelist, None);
    let mut vars = no_vars();
    vars.fulfillment_strategy = text("hosted");
    vars.max_price_per_pgu = text("5");
    vars.timeout_secs = text("60");
    vars.skip_simulation = text("yes");
    vars.cycle_limit = text("1000");
    vars.gas_limit = text("2000");
    vars.whitelist = text("0xaa");
    let r = NetworkRequest::from_vars(&vars).unwrap();
    assert_eq!(r.strategy, Some(Strategy::Hosted));
    assert_eq!(r.max_price_per_pgu, Some(5));
    assert_eq!(r.timeout_secs, Some(60));
    assert_eq!(r.skip_simulation, Some(true));
    assert_eq!(r.cycle_limit, Some(1000));
    assert_eq!(r.gas_limit, Some(2000));
    assert_eq!(r.whitelist, Some(vec!["0xaa".to_string()]));
}

#[test]
fn the_first_wrong_setting_is_reported() {
    let mut vars = no_vars();
    vars.gas_limit = text("g");
    assert_eq!(NetworkRequest::from_vars(&vars).unwrap_err().setting, Setting::GasLimit);
    vars.cycle_limit = text("c");
    assert_eq!(NetworkRequest::from_vars(&vars).unwrap_err().setting, Setting::CycleLimit);
    vars.skip_simulation = text("s");
    assert_eq!(NetworkRequest::from_vars(&vars).unwrap_err().setting, Setting::SkipSimulation);
    vars.timeout_secs = text("t");
    assert_eq!(NetworkRequest::from_vars(&vars).unwrap_err().setting, Setting::TimeoutSecs);
    vars.max_price_per_pgu = text("m");
    assert_eq!(NetworkRequest::from_vars(&vars).unwrap_err().setting, Setting::MaxPricePerPgu);
    vars.fulfillment_strategy = text("f");
    assert_eq!(
        NetworkRequest::from_vars(&vars).unwrap_err().setting,
        Setting::FulfillmentStrategy
    );
}
