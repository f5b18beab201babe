//! The guest's stages and the cycle report.
use o1zkvm::report::sort_by_name;
use o1zkvm::stages::{Section, Stage};

fn entries(names: &[&str]) -> Vec<(String, u64)> {
    names.iter().enumerate().map(|(i, n)| (n.to_string(), i as u64)).collect()
}

#[test]
fn report_is_listed_by_name() {
    let mut expected = entries(&["verify", "setup", "b", "a", "", "ab", "\u{e4}", "B", "\u{10000}", "\u{ffff}"]);
    let got = sort_by_name(expected.clone());
    expected.sort_by(|a, b| a.0.cmp(&b.0));
    assert_eq!(got, expected);
    assert_eq!(got[0], (String::new(), 4));
    assert!(sort_by_name(vec![]).is_empty());
}

#[test]
fn listing_does_not_depend_on_the_order() {
    let a = entries(&["verify", "setup", "public_inputs", "batching_rng"]);
    let mut b = a.clone();
    b.reverse();
    assert_eq!(sort_by_name(a), sort_by_name(b));
}

#[test]
fn marker_lines_name_their_section() {
    assert_eq!(Section::Setup.start_line(), "cycle-tracker-report-start:setup\n");
    assert_eq!(Section::Setup.end_line(), "cycle-tracker-report-end:setup\n");
    assert_eq!(Section::Verify.start_line(), "cycle-tracker-report-start:verify\n");
    assert_eq!(Section::AccumulatorCheck.label(), "accumulator_check");
    assert_eq!(Section::PublicInputs.label(), "public_inputs");
    assert_eq!(Section::BatchingRng.label(), "batching_rng");
    assert_eq!(
        Section::KimchiDlogCheck.end_line(),
        "cycle-tracker-report-end:kimchi_dlog_check\n"
    );
}

fn verdict(accumulators: bool, opening: bool) -> (bool, Vec<Section>) {
    let mut stage = Stage::AccumulatorCheck;
    let mut seen = Vec::new();
    loop {
        if let Some(section) = stage.section() {
            seen.push(section);
        }
        let found = match stage {
            Stage::AccumulatorCheck => accumulators,
            Stage::KimchiDlogCheck => opening,
            Stage::Done(valid) => return (valid, seen),
            _ => true,
        };
        stage = stage.next(found);
    }
}

#[test]
fn a_proof_is_valid_where_both_checks_succeed() {
    let all = vec![
        Section::AccumulatorCheck,
        Section::PublicInputs,
        Section::BatchingRng,
        Section::KimchiDlogCheck,
    ];
    assert_eq!(verdict(true, true), (true, all.clone()));
    assert_eq!(verdict(true, false), (false, all));
}

#[test]
fn failed_accumulators_end_the_work() {
    assert_eq!(verdict(false, true), (false, vec![Section::AccumulatorCheck]));
    assert_eq!(Stage::Done(false).next(true), Stage::Done(false));
    assert_eq!(Stage::PublicInputs.next(false), Stage::BatchingRng);
}
