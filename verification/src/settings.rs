//! How a proving run is set up: which prover runs, what kind of proof it makes, and
//! what a request to the prover network asks for. Everything is read from texts, of
//! which any may be missing.
use crate::text;
use crate::text::parse_decimal;
use crate::text::same_text;
use crate::text::split_filled;
use crate::text::to_ascii_lowercase;
use crate::text::trim;
use crate::text::NumberError;
use vstd::prelude::*;

verus! {

/// What a run does.
#[derive(Clone, Copy, PartialEq, Eq, Debug, Structural)]
pub enum Run {
    /// Executes the program without a proof.
    Execute,
    /// Proves with the prover that the environment names.
    ProveFromEnv,
    /// Proves on the prover network.
    ProveOnNetwork,
}

/// The kind of a proof.
#[derive(Clone, Copy, PartialEq, Eq, Debug, Structural)]
pub enum ProofType {
    Core,
    Compressed,
    Plonk,
    Groth16,
}

/// Who fulfils a request to the network.
#[derive(Clone, Copy, PartialEq, Eq, Debug, Structural)]
pub enum Strategy {
    Auction,
    Hosted,
    Reserved,
}

/// The settings of a network request that can be wrong.
#[derive(Clone, Copy, PartialEq, Eq, Debug, Structural)]
pub enum Setting {
    FulfillmentStrategy,
    MaxPricePerPgu,
    TimeoutSecs,
    SkipSimulation,
    CycleLimit,
    GasLimit,
}

/// What is wrong with a setting.
#[derive(Clone, Copy, PartialEq, Eq, Debug, Structural)]
pub enum Reason {
    UnknownStrategy,
    NotU64(NumberError),
    NotBool,
}

/// A setting that is wrong, with the text that it was read as.
#[derive(Debug)]
pub struct SettingError {
    pub setting: Setting,
    pub given: String,
    pub reason: Reason,
}

/// The texts of a network request's settings.
#[derive(Debug)]
pub struct NetworkVars {
    pub fulfillment_strategy: Option<String>,
    pub max_price_per_pgu: Option<String>,
    pub timeout_secs: Option<String>,
    pub skip_simulation: Option<String>,
    pub cycle_limit: Option<String>,
    pub gas_limit: Option<String>,
    pub whitelist: Option<String>,
}

/// What a network request asks for. What is missing is left to the network.
#[derive(Debug)]
pub struct NetworkRequest {
    pub strategy: Option<Strategy>,
    pub max_price_per_pgu: Option<u64>,
    pub timeout_secs: Option<u64>,
    pub skip_simulation: Option<bool>,
    pub cycle_limit: Option<u64>,
    pub gas_limit: Option<u64>,
    pub whitelist: Option<Vec<String>>,
}

impl Setting {
    /// The environment variable that holds the setting.
    pub open spec fn variable_name(self) -> Seq<char> {
        match self {
            Setting::FulfillmentStrategy => "SP1_FULFILLMENT_STRATEGY"@,
            Setting::MaxPricePerPgu => "SP1_MAX_PRICE_PER_PGU"@,
            Setting::TimeoutSecs => "SP1_TIMEOUT_SECS"@,
            Setting::SkipSimulation => "SP1_SKIP_SIMULATION"@,
            Setting::CycleLimit => "SP1_CYCLE_LIMIT"@,
            Setting::GasLimit => "SP1_GAS_LIMIT"@,
        }
    }

    /// The environment variable that holds the setting.
    pub fn variable(self) -> (r: &'static str)
        ensures
            r@ == self.variable_name(),
    {
        match self {
            Setting::FulfillmentStrategy => "SP1_FULFILLMENT_STRATEGY",
            Setting::MaxPricePerPgu => "SP1_MAX_PRICE_PER_PGU",
            Setting::TimeoutSecs => "SP1_TIMEOUT_SECS",
            Setting::SkipSimulation => "SP1_SKIP_SIMULATION",
            Setting::CycleLimit => "SP1_CYCLE_LIMIT",
            Setting::GasLimit => "SP1_GAS_LIMIT",
        }
    }
}

/// The kind of proof with a name.
pub open spec fn proof_type_named(s: Seq<char>) -> Option<ProofType> {
    if s == "plonk"@ {
        Some(ProofType::Plonk)
    } else if s == "groth16"@ {
        Some(ProofType::Groth16)
    } else if s == "compressed"@ {
        Some(ProofType::Compressed)
    } else if s == "core"@ {
        Some(ProofType::Core)
    } else {
        None
    }
}

/// The strategy with a name in small letters.
pub open spec fn strategy_named(s: Seq<char>) -> Option<Strategy> {
    if s == "auction"@ {
        Some(Strategy::Auction)
    } else if s == "hosted"@ {
        Some(Strategy::Hosted)
    } else if s == "reserved"@ {
        Some(Strategy::Reserved)
    } else {
        None
    }
}

/// The truth value with a name in small letters.
pub open spec fn bool_named(s: Seq<char>) -> Option<bool> {
    if s == "true"@ || s == "1"@ || s == "yes"@ {
        Some(true)
    } else if s == "false"@ || s == "0"@ || s == "no"@ {
        Some(false)
    } else {
        None
    }
}

/// A wrong setting, as the contracts speak of it.
pub open spec fn fault(e: SettingError) -> (Setting, Seq<char>, Reason) {
    (e.setting, e.given@, e.reason)
}

/// What is wrong with a strategy, if anything is.
pub open spec fn strategy_fault(v: Option<String>) -> Option<(Setting, Seq<char>, Reason)> {
    match v {
        Some(s) if strategy_named(text::ascii_lower(s@)) is None => Some(
            (Setting::FulfillmentStrategy, text::ascii_lower(s@), Reason::UnknownStrategy),
        ),
        _ => None,
    }
}

/// What is wrong with a number, if anything is.
pub open spec fn u64_fault(setting: Setting, v: Option<String>) -> Option<
    (Setting, Seq<char>, Reason),
> {
    match v {
        Some(s) => match text::decimal_value(s@) {
            Ok(_) => None,
            Err(e) => Some((setting, s@, Reason::NotU64(e))),
        },
        None => None,
    }
}

/// What is wrong with a truth value, if anything is.
pub open spec fn bool_fault(setting: Setting, v: Option<String>) -> Option<
    (Setting, Seq<char>, Reason),
> {
    match v {
        Some(s) if bool_named(text::ascii_lower(s@)) is None => Some(
            (setting, text::ascii_lower(s@), Reason::NotBool),
        ),
        _ => None,
    }
}

/// The first fault, if there is any.
pub open spec fn first_of(faults: Seq<Option<(Setting, Seq<char>, Reason)>>) -> Option<
    (Setting, Seq<char>, Reason),
>
    decreases faults.len(),
{
    if faults.len() == 0 {
        None
    } else if faults[0] is Some {
        faults[0]
    } else {
        first_of(faults.drop_first())
    }
}

impl NetworkVars {
    /// What is wrong with each setting, in the order in which they are read.
    pub open spec fn faults(self) -> Seq<Option<(Setting, Seq<char>, Reason)>> {
        seq![
            strategy_fault(self.fulfillment_strategy),
            u64_fault(Setting::MaxPricePerPgu, self.max_price_per_pgu),
            u64_fault(Setting::TimeoutSecs, self.timeout_secs),
            bool_fault(Setting::SkipSimulation, self.skip_simulation),
            u64_fault(Setting::CycleLimit, self.cycle_limit),
            u64_fault(Setting::GasLimit, self.gas_limit),
        ]
    }
}

/// The strategy that a setting asks for.
pub open spec fn strategy_asked(v: Option<String>) -> Option<Strategy> {
    match v {
        None => None,
        Some(s) => strategy_named(text::ascii_lower(s@)),
    }
}

/// The number that a setting asks for.
pub open spec fn u64_asked(v: Option<String>) -> Option<u64> {
    match v {
        None => None,
        Some(s) => match text::decimal_value(s@) {
            Ok(n) => Some(n as u64),
            Err(_) => None,
        },
    }
}

/// The truth value that a setting asks for.
pub open spec fn bool_asked(v: Option<String>) -> Option<bool> {
    match v {
        None => None,
        Some(s) => bool_named(text::ascii_lower(s@)),
    }
}

/// The entries of a whitelist: none at all, where it is missing or blank.
pub open spec fn whitelist_asked(v: Option<String>) -> Option<Seq<Seq<char>>> {
    match v {
        None => None,
        Some(s) => if text::trimmed(s@).len() == 0 {
            None
        } else {
            Some(text::filled(text::comma_fields(text::trimmed(s@))))
        },
    }
}

impl NetworkRequest {
    /// What each entry of the whitelist says.
    pub open spec fn whitelist_texts(self) -> Option<Seq<Seq<char>>> {
        match self.whitelist {
            None => None,
            Some(v) => Some(text::texts(v@)),
        }
    }

    /// Whether this asks for what the settings say.
    pub open spec fn follows(self, vars: NetworkVars) -> bool {
        &&& self.strategy == strategy_asked(vars.fulfillment_strategy)
        &&& self.max_price_per_pgu == u64_asked(vars.max_price_per_pgu)
        &&& self.timeout_secs == u64_asked(vars.timeout_secs)
        &&& self.skip_simulation == bool_asked(vars.skip_simulation)
        &&& self.cycle_limit == u64_asked(vars.cycle_limit)
        &&& self.gas_limit == u64_asked(vars.gas_limit)
        &&& self.whitelist_texts() == whitelist_asked(vars.whitelist)
    }
}

/// The text of a setting that may be missing.
pub open spec fn given_text(v: Option<&str>) -> Option<Seq<char>> {
    match v {
        None => None,
        Some(s) => Some(s@),
    }
}

/// What a run does, where `prover` is the name that the prover is given.
pub open spec fn run_asked(prove: bool, prover: Option<Seq<char>>) -> Run {
    if !prove {
        Run::Execute
    } else if prover == Some("network"@) {
        Run::ProveOnNetwork
    } else {
        Run::ProveFromEnv
    }
}

/// The kind of proof that a name asks for, if it is the name of one.
pub open spec fn proof_type_asked(name: Option<Seq<char>>) -> Option<ProofType> {
    match name {
        None => Some(ProofType::Core),
        Some(s) => proof_type_named(s),
    }
}

/// What a run does: it proves only where that is asked for, and on the network only
/// where the prover is named `network`.
pub fn choose_run(prove: bool, prover: Option<&str>) -> (r: Run)
    ensures
        r == if !prove {
            Run::Execute
        } else if prover matches Some(s) && s@ == "network"@ {
            Run::ProveOnNetwork
        } else {
            Run::ProveFromEnv
        },
        r == run_asked(prove, given_text(prover)),
{
    if !prove {
        return Run::Execute;
    }
    match prover {
        Some(s) => if same_text(s, "network") {
            Run::ProveOnNetwork
        } else {
            Run::ProveFromEnv
        },
        None => Run::ProveFromEnv,
    }
}

/// The kind of proof that is asked for: core, where nothing is; `None`, where the
/// name is unknown.
pub fn choose_proof_type(name: Option<&str>) -> (r: Option<ProofType>)
    ensures
        r == match name {
            None => Some(ProofType::Core),
            Some(s) => proof_type_named(s@),
        },
        r == proof_type_asked(given_text(name)),
{
    match name {
        None => Some(ProofType::Core),
        Some(s) => if same_text(s, "plonk") {
            Some(ProofType::Plonk)
        } else if same_text(s, "groth16") {
            Some(ProofType::Groth16)
        } else if same_text(s, "compressed") {
            Some(ProofType::Compressed)
        } else if same_text(s, "core") {
            Some(ProofType::Core)
        } else {
            None
        },
    }
}

/// The strategy that a setting asks for.
pub fn parse_strategy(value: &Option<String>) -> (r: Result<Option<Strategy>, SettingError>)
    ensures
        match r {
            Ok(v) => strategy_fault(*value) is None && v == strategy_asked(*value),
            Err(e) => strategy_fault(*value) == Some(fault(e)),
        },
{
    match value {
        None => Ok(None),
        Some(s) => {
            let low: String = to_ascii_lowercase(s.as_str());
            if same_text(low.as_str(), "auction") {
                Ok(Some(Strategy::Auction))
            } else if same_text(low.as_str(), "hosted") {
                Ok(Some(Strategy::Hosted))
            } else if same_text(low.as_str(), "reserved") {
                Ok(Some(Strategy::Reserved))
            } else {
                Err(
                    SettingError {
                        setting: Setting::FulfillmentStrategy,
                        given: low,
                        reason: Reason::UnknownStrategy,
                    },
                )
            }
        },
    }
}

/// The number that a setting asks for.
pub fn parse_u64(setting: Setting, value: &Option<String>) -> (r: Result<Option<u64>, SettingError>)
    ensures
        match r {
            Ok(v) => u64_fault(setting, *value) is None && v == u64_asked(*value),
            Err(e) => u64_fault(setting, *value) == Some(fault(e)),
        },
{
    match value {
        None => Ok(None),
        Some(s) => match parse_decimal(s.as_str()) {
            Ok(n) => Ok(Some(n)),
            Err(e) => Err(SettingError { setting, given: s.clone(), reason: Reason::NotU64(e) }),
        },
    }
}

/// The truth value that a setting asks for.
pub fn parse_bool(setting: Setting, value: &Option<String>) -> (r: Result<
    Option<bool>,
    SettingError,
>)
    ensures
        match r {
            Ok(v) => bool_fault(setting, *value) is None && v == bool_asked(*value),
            Err(e) => bool_fault(setting, *value) == Some(fault(e)),
        },
{
    match value {
        None => Ok(None),
        Some(s) => {
            let low: String = to_ascii_lowercase(s.as_str());
            let t: &str = low.as_str();
            if same_text(t, "true") || same_text(t, "1") || same_text(t, "yes") {
                Ok(Some(true))
            } else if same_text(t, "false") || same_text(t, "0") || same_text(t, "no") {
                Ok(Some(false))
            } else {
                Err(SettingError { setting, given: low, reason: Reason::NotBool })
            }
        },
    }
}

/// The entries of a comma-separated whitelist: none at all, where it is missing or
/// blank.
pub fn parse_whitelist(value: &Option<String>) -> (r: Option<Vec<String>>)
    ensures
        match r {
            None => whitelist_asked(*value) is None,
            Some(v) => whitelist_asked(*value) == Some(text::texts(v@)),
        },
{
    match value {
        None => None,
        Some(s) => {
            let trimmed: &str = trim(s.as_str());
            if trimmed.is_empty() {
                None
            } else {
                Some(split_filled(trimmed))
            }
        },
    }
}

impl NetworkRequest {
    /// The request that the settings ask for, or the first setting that is wrong.
    pub fn from_vars(vars: &NetworkVars) -> (r: Result<NetworkRequest, SettingError>)
        ensures
            match r {
                Ok(req) => first_of(vars.faults()) is None && req.follows(*vars),
                Err(e) => first_of(vars.faults()) == Some(fault(e)),
            },
    {
        proof {
            reveal_with_fuel(first_of, 7);
        }
        let strategy: Option<Strategy> = match parse_strategy(&vars.fulfillment_strategy) {
            Ok(v) => v,
            Err(e) => return Err(e),
        };
        let max_price_per_pgu: Option<u64> = match parse_u64(
            Setting::MaxPricePerPgu,
            &vars.max_price_per_pgu,
        ) {
            Ok(v) => v,
            Err(e) => return Err(e),
        };
        let timeout_secs: Option<u64> = match parse_u64(Setting::TimeoutSecs, &vars.timeout_secs) {
            Ok(v) => v,
            Err(e) => return Err(e),
        };
        let skip_simulation: Option<bool> = match parse_bool(
            Setting::SkipSimulation,
            &vars.skip_simulation,
        ) {
            Ok(v) => v,
            Err(e) => return Err(e),
        };
        let cycle_limit: Option<u64> = match parse_u64(Setting::CycleLimit, &vars.cycle_limit) {
            Ok(v) => v,
            Err(e) => return Err(e),
        };
        let gas_limit: Option<u64> = match parse_u64(Setting::GasLimit, &vars.gas_limit) {
            Ok(v) => v,
            Err(e) => return Err(e),
        };
        let whitelist: Option<Vec<String>> = parse_whitelist(&vars.whitelist);
        Ok(
            NetworkRequest {
                strategy,
                max_price_per_pgu,
                timeout_secs,
                skip_simulation,
                cycle_limit,
                gas_limit,
                whitelist,
            },
        )
    }
}

/// The text of a setting is the text that it was given, if it was given any.
pub proof fn law_given_text(v: Option<&str>)
    ensures
        given_text(v) is Some <==> v is Some,
        v matches Some(s) ==> given_text(v) == Some(s@),
{
}

/// A run proves if and only if that is asked for, and does so on the network if and only
/// if the prover's name is `network`, letter for letter.
pub proof fn law_runs(prove: bool, prover: Option<Seq<char>>)
    ensures
        run_asked(prove, prover) == Run::Execute <==> !prove,
        run_asked(prove, prover) == Run::ProveOnNetwork <==> prove && prover == Some(
            seq!['n', 'e', 't', 'w', 'o', 'r', 'k'],
        ),
{
    reveal_strlit("network");
    assert("network"@ =~= seq!['n', 'e', 't', 'w', 'o', 'r', 'k']);
}

/// There are four names of kinds of proofs, each for a kind of its own, and no other text
/// is the name of one. Where no name is given, the kind is the one named `core`.
pub proof fn law_proof_type_names(s: Seq<char>, t: Seq<char>)
    ensures
        proof_type_asked(Some(s)) is Some <==> s == "core"@ || s == "compressed"@ || s == "plonk"@
            || s == "groth16"@,
        proof_type_asked(Some(s)) is Some && proof_type_asked(Some(s)) == proof_type_asked(Some(t))
            ==> s == t,
        proof_type_asked(Some(s)) == Some(ProofType::Core) <==> s == "core"@,
        proof_type_asked(Some(s)) == Some(ProofType::Compressed) <==> s == "compressed"@,
        proof_type_asked(Some(s)) == Some(ProofType::Plonk) <==> s == "plonk"@,
        proof_type_asked(Some(s)) == Some(ProofType::Groth16) <==> s == "groth16"@,
        proof_type_named(s) == proof_type_asked(Some(s)),
        proof_type_asked(None) == proof_type_asked(Some("core"@)),
{
    reveal_strlit("core");
    reveal_strlit("compressed");
    reveal_strlit("plonk");
    reveal_strlit("groth16");
    assert("core"@.len() == 4);
    assert("compressed"@.len() == 10);
    assert("plonk"@.len() == 5);
    assert("groth16"@.len() == 7);
}

/// A text is a name in small letters if and only if it is that name but for capitals.
proof fn lemma_named_in_any_case(s: Seq<char>, name: Seq<char>)
    requires
        forall|i: int| 0 <= i < name.len() ==> !('A' <= #[trigger] name[i] <= 'Z'),
    ensures
        text::ascii_lower(s) == name <==> text::same_but_for_case(s, name),
{
    text::law_lower_case_is_case_alone(s, name);
    assert(text::ascii_lower(name) =~= name);
}

/// Three texts are true and three are false, in capitals or small letters alike; nothing
/// else is a truth value, and what is none is reported in small letters.
pub proof fn law_truth_values(setting: Setting, s: String)
    ensures
        bool_asked(Some(s)) == Some(true) <==> text::same_but_for_case(s@, "true"@)
            || text::same_but_for_case(s@, "1"@) || text::same_but_for_case(s@, "yes"@),
        bool_asked(Some(s)) == Some(false) <==> text::same_but_for_case(s@, "false"@)
            || text::same_but_for_case(s@, "0"@) || text::same_but_for_case(s@, "no"@),
        bool_fault(setting, Some(s)) is None <==> bool_asked(Some(s)) is Some,
        bool_fault(setting, Some(s)) matches Some(f) ==> f == (
            setting,
            text::ascii_lower(s@),
            Reason::NotBool,
        ),
        bool_asked(None) is None,
        bool_fault(setting, None) is None,
{
    reveal_strlit("true");
    reveal_strlit("1");
    reveal_strlit("yes");
    reveal_strlit("false");
    reveal_strlit("0");
    reveal_strlit("no");
    lemma_named_in_any_case(s@, "true"@);
    lemma_named_in_any_case(s@, "1"@);
    lemma_named_in_any_case(s@, "yes"@);
    lemma_named_in_any_case(s@, "false"@);
    lemma_named_in_any_case(s@, "0"@);
    lemma_named_in_any_case(s@, "no"@);
    assert("true"@.len() == 4 && "false"@.len() == 5 && "yes"@.len() == 3 && "no"@.len() == 2);
    assert("1"@[0] == '1' && "0"@[0] == '0');
}

/// Three texts are strategies, in capitals or small letters alike; nothing else is one,
/// and what is none is reported in small letters.
pub proof fn law_strategies(s: String)
    ensures
        strategy_asked(Some(s)) == Some(Strategy::Auction) <==> text::same_but_for_case(
            s@,
            "auction"@,
        ),
        strategy_asked(Some(s)) == Some(Strategy::Hosted) <==> text::same_but_for_case(
            s@,
            "hosted"@,
        ),
        strategy_asked(Some(s)) == Some(Strategy::Reserved) <==> text::same_but_for_case(
            s@,
            "reserved"@,
        ),
        strategy_fault(Some(s)) is None <==> strategy_asked(Some(s)) is Some,
        strategy_fault(Some(s)) matches Some(f) ==> f == (
            Setting::FulfillmentStrategy,
            text::ascii_lower(s@),
            Reason::UnknownStrategy,
        ),
        strategy_asked(None) is None,
        strategy_fault(None) is None,
{
    reveal_strlit("auction");
    reveal_strlit("hosted");
    reveal_strlit("reserved");
    lemma_named_in_any_case(s@, "auction"@);
    lemma_named_in_any_case(s@, "hosted"@);
    lemma_named_in_any_case(s@, "reserved"@);
    assert("auction"@.len() == 7 && "hosted"@.len() == 6 && "reserved"@.len() == 8);
}

/// Capitals make no difference to truth values and strategies: neither to what is asked
/// for nor to what is wrong.
pub proof fn law_case_does_not_matter(setting: Setting, a: String, b: String)
    requires
        text::same_but_for_case(a@, b@),
    ensures
        bool_asked(Some(a)) == bool_asked(Some(b)),
        bool_fault(setting, Some(a)) == bool_fault(setting, Some(b)),
        strategy_asked(Some(a)) == strategy_asked(Some(b)),
        strategy_fault(Some(a)) == strategy_fault(Some(b)),
{
    text::law_lower_case_is_case_alone(a@, b@);
}

/// The digits of a number setting: all of its text, or all behind a `+`.
pub open spec fn setting_digits(s: Seq<char>) -> Seq<char> {
    if s.len() > 0 && s[0] == '+' {
        s.drop_first()
    } else {
        s
    }
}

/// A number setting asks for the number that its digits make, in places of ones, tens,
/// hundreds and so on, if and only if there are digits, nothing but digits, and the number
/// fits in 64 bits. Else it is reported with its text as it was given.
pub proof fn law_number_settings(setting: Setting, s: String)
    ensures
        ({
            let digits = setting_digits(s@);
            let fits = digits.len() > 0 && text::only_digits(digits) && text::place_sum(digits)
                <= u64::MAX;
            &&& u64_asked(Some(s)) is Some <==> fits
            &&& u64_asked(Some(s)) matches Some(n) ==> n == text::place_sum(digits)
            &&& u64_fault(setting, Some(s)) is None <==> fits
            &&& u64_fault(setting, Some(s)) matches Some(f) ==> {
                &&& f.0 == setting
                &&& f.1 == s@
                &&& f.2 == Reason::NotU64(NumberError::Empty) <==> s@.len() == 0
                &&& f.2 == Reason::NotU64(NumberError::TooLarge) <==> exists|k: int|
                    0 <= k <= digits.len() && text::only_digits(#[trigger] digits.take(k))
                        && text::place_sum(digits.take(k)) > u64::MAX
                &&& f.2 is NotU64
            }
        }),
        u64_asked(None) is None,
        u64_fault(setting, None) is None,
{
    let digits = setting_digits(s@);
    text::law_digits_are_read_by_place(digits);
    text::law_sign_is_optional(digits);
    if s@.len() > 0 && s@[0] == '+' {
        if digits.len() == 0 {
            assert(s@ =~= seq!['+']);
            assert forall|k: int| 0 <= k <= digits.len() implies text::place_sum(
                #[trigger] digits.take(k),
            ) == 0 by {
                assert(digits.take(k).len() == 0);
            }
        } else {
            assert(s@ =~= seq!['+'] + digits);
        }
    }
    if s@.len() == 0 {
        assert forall|k: int| 0 <= k <= digits.len() implies text::place_sum(
            #[trigger] digits.take(k),
        ) == 0 by {
            assert(digits.take(k).len() == 0);
        }
    }
}

/// A whitelist that is missing, or that holds white space only, is none. Any other is the
/// list of its fields between commas that hold more than white space: all of them, each
/// once and in their order, trimmed.
pub proof fn law_whitelist_is_complete(s: String)
    ensures
        whitelist_asked(Some(s)) is None <==> (forall|k: int|
            0 <= k < s@.len() ==> text::white_space(#[trigger] s@[k])),
        whitelist_asked(Some(s)) matches Some(entries) ==> entries == text::comma_fields(
            s@,
        ).filter(text::holds_something()).map_values(|f: Seq<char>| text::trimmed(f)),
        whitelist_asked(None) is None,
{
    text::law_blank_means_white_space_only(s@);
    text::law_trimming_keeps_the_entries(s@);
    text::law_no_filled_field_is_lost(text::comma_fields(s@));
}

/// Whitelists with a comma between them are one whitelist, with the entries of the first
/// and then those of the second; and one without a comma is one entry.
pub proof fn law_whitelists_join(a: String, b: String, both: String)
    requires
        both@ == a@ + seq![','] + b@,
    ensures
        ({
            let first = match whitelist_asked(Some(a)) {
                None => Seq::<Seq<char>>::empty(),
                Some(entries) => entries,
            };
            let second = match whitelist_asked(Some(b)) {
                None => Seq::<Seq<char>>::empty(),
                Some(entries) => entries,
            };
            whitelist_asked(Some(both)) == Some(first + second)
        }),
        !a@.contains(',') ==> match whitelist_asked(Some(a)) {
            None => text::trimmed(a@).len() == 0,
            Some(entries) => entries == seq![text::trimmed(a@)],
        },
{
    text::law_entries_of_parts(a@, b@);
    text::law_entries_of_parts(b@, a@);
    text::law_trimming_keeps_the_entries(a@);
    text::law_trimming_keeps_the_entries(b@);
    text::law_trimming_keeps_the_entries(both@);
    lemma_blank_has_no_entries(a@);
    lemma_blank_has_no_entries(b@);
    text::law_blank_means_white_space_only(both@);
    assert(both@[a@.len() as int] == ',');
    assert(!text::white_space(','));
}

proof fn lemma_blank_has_no_entries(s: Seq<char>)
    ensures
        text::trimmed(s).len() == 0 ==> text::filled(text::comma_fields(s)) == Seq::<
            Seq<char>,
        >::empty(),
{
    if text::trimmed(s).len() == 0 {
        text::law_blank_means_white_space_only(s);
        if s.contains(',') {
            let k = choose|k: int| 0 <= k < s.len() && s[k] == ',';
            assert(text::white_space(s[k]));
        }
        text::law_entries_of_parts(s, s);
    }
}

/// The first fault is the one with no fault before it; there is none if and only if
/// nothing is wrong.
pub proof fn law_first_fault(faults: Seq<Option<(Setting, Seq<char>, Reason)>>, k: int)
    requires
        0 <= k <= faults.len(),
        forall|i: int| 0 <= i < k ==> (#[trigger] faults[i]) is None,
        k < faults.len() ==> faults[k] is Some,
    ensures
        first_of(faults) == if k < faults.len() {
            faults[k]
        } else {
            None
        },
    decreases k,
{
    if k > 0 {
        let rest = faults.drop_first();
        assert(faults[0] is None);
        assert forall|i: int| 0 <= i < k - 1 implies (#[trigger] rest[i]) is None by {
            assert(faults[i + 1] is None);
        }
        law_first_fault(rest, k - 1);
    }
}

/// The settings are read in one order: the strategy, the price, the time, the simulation,
/// the cycles, the gas. So nothing is wrong with a request if and only if nothing is with
/// any of them, and a whitelist is never wrong.
pub proof fn law_settings_are_read_in_order(vars: NetworkVars)
    ensures
        vars.faults().len() == 6,
        vars.faults()[0] == strategy_fault(vars.fulfillment_strategy),
        vars.faults()[1] == u64_fault(Setting::MaxPricePerPgu, vars.max_price_per_pgu),
        vars.faults()[2] == u64_fault(Setting::TimeoutSecs, vars.timeout_secs),
        vars.faults()[3] == bool_fault(Setting::SkipSimulation, vars.skip_simulation),
        vars.faults()[4] == u64_fault(Setting::CycleLimit, vars.cycle_limit),
        vars.faults()[5] == u64_fault(Setting::GasLimit, vars.gas_limit),
        first_of(vars.faults()) is None <==> (strategy_fault(vars.fulfillment_strategy) is None
            && u64_fault(Setting::MaxPricePerPgu, vars.max_price_per_pgu) is None && u64_fault(
            Setting::TimeoutSecs,
            vars.timeout_secs,
        ) is None && bool_fault(Setting::SkipSimulation, vars.skip_simulation) is None
            && u64_fault(Setting::CycleLimit, vars.cycle_limit) is None && u64_fault(
            Setting::GasLimit,
            vars.gas_limit,
        ) is None),
{
    reveal_with_fuel(first_of, 7);
}

/// A request that follows the settings asks for what each of them asks for, and for
/// nothing that is missing: every field goes by its own setting.
pub proof fn law_request_follows_each_setting(req: NetworkRequest, vars: NetworkVars)
    requires
        req.follows(vars),
    ensures
        req.strategy == strategy_asked(vars.fulfillment_strategy),
        req.max_price_per_pgu == u64_asked(vars.max_price_per_pgu),
        req.timeout_secs == u64_asked(vars.timeout_secs),
        req.skip_simulation == bool_asked(vars.skip_simulation),
        req.cycle_limit == u64_asked(vars.cycle_limit),
        req.gas_limit == u64_asked(vars.gas_limit),
        req.whitelist is Some <==> whitelist_asked(vars.whitelist) is Some,
        req.whitelist matches Some(v) ==> {
            &&& whitelist_asked(vars.whitelist)->0.len() == v@.len()
            &&& forall|i: int|
                0 <= i < v@.len() ==> whitelist_asked(vars.whitelist)->0[i] == (
                #[trigger] v@[i])@
        },
{
    if let Some(v) = req.whitelist {
        assert forall|i: int| 0 <= i < v@.len() implies whitelist_asked(vars.whitelist)->0[i] == (
        #[trigger] v@[i])@ by {
            text::law_texts(v@, i);
        }
        text::law_texts(v@, 0);
    }
}

/// A wrong setting is reported as what it is: which one, the text, and the reason.
pub proof fn law_faults_say_what_is_wrong(e: SettingError)
    ensures
        fault(e).0 == e.setting,
        fault(e).1 == e.given@,
        fault(e).2 == e.reason,
{
}

/// Every setting has a variable of its own.
pub proof fn law_settings_have_variables(a: Setting, b: Setting)
    ensures
        a.variable_name() == b.variable_name() ==> a == b,
        a.variable_name() == "SP1_FULFILLMENT_STRATEGY"@ <==> a == Setting::FulfillmentStrategy,
        a.variable_name() == "SP1_MAX_PRICE_PER_PGU"@ <==> a == Setting::MaxPricePerPgu,
        a.variable_name() == "SP1_TIMEOUT_SECS"@ <==> a == Setting::TimeoutSecs,
        a.variable_name() == "SP1_SKIP_SIMULATION"@ <==> a == Setting::SkipSimulation,
        a.variable_name() == "SP1_CYCLE_LIMIT"@ <==> a == Setting::CycleLimit,
        a.variable_name() == "SP1_GAS_LIMIT"@ <==> a == Setting::GasLimit,
{
    reveal_strlit("SP1_FULFILLMENT_STRATEGY");
    reveal_strlit("SP1_MAX_PRICE_PER_PGU");
    reveal_strlit("SP1_TIMEOUT_SECS");
    reveal_strlit("SP1_SKIP_SIMULATION");
    reveal_strlit("SP1_CYCLE_LIMIT");
    reveal_strlit("SP1_GAS_LIMIT");
    assert("SP1_FULFILLMENT_STRATEGY"@[4] == 'F');
    assert("SP1_MAX_PRICE_PER_PGU"@[4] == 'M');
    assert("SP1_TIMEOUT_SECS"@[4] == 'T');
    assert("SP1_SKIP_SIMULATION"@[4] == 'S');
    assert("SP1_CYCLE_LIMIT"@[4] == 'C');
    assert("SP1_GAS_LIMIT"@[4] == 'G');
}

} // verus!
