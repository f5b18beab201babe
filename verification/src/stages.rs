//! The stages in which the guest checks a proof, and the lines that mark them for
//! the cycle tracker.
use vstd::prelude::*;

verus! {

/// A stretch of the guest's work whose cycles are counted.
#[derive(Clone, Copy, PartialEq, Eq, Debug, Structural)]
pub enum Section {
    Setup,
    Verify,
    AccumulatorCheck,
    PublicInputs,
    BatchingRng,
    KimchiDlogCheck,
}

/// What the guest does next in checking a proof.
#[derive(Clone, Copy, PartialEq, Eq, Debug, Structural)]
pub enum Stage {
    /// Checks the accumulators.
    AccumulatorCheck,
    /// Computes the public inputs.
    PublicInputs,
    /// Seeds the random numbers of the batched check.
    BatchingRng,
    /// Checks the batched opening.
    KimchiDlogCheck,
    /// Commits whether the proof is valid.
    Done(bool),
}

impl Section {
    /// The name under which the cycles are counted.
    pub open spec fn name(self) -> Seq<char> {
        match self {
            Section::Setup => "setup"@,
            Section::Verify => "verify"@,
            Section::AccumulatorCheck => "accumulator_check"@,
            Section::PublicInputs => "public_inputs"@,
            Section::BatchingRng => "batching_rng"@,
            Section::KimchiDlogCheck => "kimchi_dlog_check"@,
        }
    }

    /// The name under which the cycles are counted.
    pub fn label(self) -> (r: &'static str)
        ensures
            r@ == self.name(),
    {
        match self {
            Section::Setup => "setup",
            Section::Verify => "verify",
            Section::AccumulatorCheck => "accumulator_check",
            Section::PublicInputs => "public_inputs",
            Section::BatchingRng => "batching_rng",
            Section::KimchiDlogCheck => "kimchi_dlog_check",
        }
    }

    /// The text of the line that starts the count, or of the one that ends it.
    pub open spec fn marker(self, starts: bool) -> Seq<char> {
        if starts {
            "cycle-tracker-report-start:"@ + self.name() + "\n"@
        } else {
            "cycle-tracker-report-end:"@ + self.name() + "\n"@
        }
    }

    /// The line that starts the count.
    pub fn start_line(self) -> (r: String)
        ensures
            r@ == "cycle-tracker-report-start:"@ + self.name() + "\n"@,
            r@ == self.marker(true),
    {
        String::from_str("cycle-tracker-report-start:").concat(self.label()).concat("\n")
    }

    /// The line that ends the count.
    pub fn end_line(self) -> (r: String)
        ensures
            r@ == "cycle-tracker-report-end:"@ + self.name() + "\n"@,
            r@ == self.marker(false),
    {
        String::from_str("cycle-tracker-report-end:").concat(self.label()).concat("\n")
    }
}

impl Stage {
    /// The section that the stage's cycles are counted under. Committing is not
    /// counted.
    pub open spec fn counted_under(self) -> Option<Section> {
        match self {
            Stage::AccumulatorCheck => Some(Section::AccumulatorCheck),
            Stage::PublicInputs => Some(Section::PublicInputs),
            Stage::BatchingRng => Some(Section::BatchingRng),
            Stage::KimchiDlogCheck => Some(Section::KimchiDlogCheck),
            Stage::Done(_) => None,
        }
    }

    /// The stage after this one, where `ok` says what a check found.
    pub open spec fn following(self, ok: bool) -> Stage {
        match self {
            Stage::AccumulatorCheck => if ok {
                Stage::PublicInputs
            } else {
                Stage::Done(false)
            },
            Stage::PublicInputs => Stage::BatchingRng,
            Stage::BatchingRng => Stage::KimchiDlogCheck,
            Stage::KimchiDlogCheck => Stage::Done(ok),
            Stage::Done(valid) => Stage::Done(valid),
        }
    }

    /// The section that the stage's cycles are counted under.
    pub fn section(self) -> (r: Option<Section>)
        ensures
            r == self.counted_under(),
    {
        match self {
            Stage::AccumulatorCheck => Some(Section::AccumulatorCheck),
            Stage::PublicInputs => Some(Section::PublicInputs),
            Stage::BatchingRng => Some(Section::BatchingRng),
            Stage::KimchiDlogCheck => Some(Section::KimchiDlogCheck),
            Stage::Done(_) => None,
        }
    }

    /// The stage after this one, where `ok` says what a check found. A failed check
    /// of the accumulators ends the work. A stage that checks nothing goes on
    /// whatever `ok` is.
    pub fn next(self, ok: bool) -> (r: Stage)
        ensures
            r == self.following(ok),
    {
        match self {
            Stage::AccumulatorCheck => if ok {
                Stage::PublicInputs
            } else {
                Stage::Done(false)
            },
            Stage::PublicInputs => Stage::BatchingRng,
            Stage::BatchingRng => Stage::KimchiDlogCheck,
            Stage::KimchiDlogCheck => Stage::Done(ok),
            Stage::Done(valid) => Stage::Done(valid),
        }
    }
}

/// Where the guest is after `n` steps, where `found` says what each stage finds.
pub open spec fn stage_after(found: spec_fn(Stage) -> bool, n: nat) -> Stage
    decreases n,
{
    if n == 0 {
        Stage::AccumulatorCheck
    } else {
        let before = stage_after(found, (n - 1) as nat);
        before.following(found(before))
    }
}

/// The guest commits that the proof is valid if and only if both checks succeed,
/// and the second check is reached only where the first succeeds.
pub proof fn law_valid_means_both_checks(found: spec_fn(Stage) -> bool, n: nat)
    ensures
        n >= 4 ==> stage_after(found, n) == Stage::Done(
            found(Stage::AccumulatorCheck) && found(Stage::KimchiDlogCheck),
        ),
        stage_after(found, n) == Stage::KimchiDlogCheck ==> found(Stage::AccumulatorCheck),
    decreases n,
{
    reveal_with_fuel(stage_after, 5);
    if n > 4 {
        law_valid_means_both_checks(found, (n - 1) as nat);
    }
}

/// The work goes through the check of the accumulators, the public inputs, the random
/// numbers and the batched check, in this order and each of them once, unless the first
/// check fails: then nothing follows it. What is committed stays as it is.
pub proof fn law_stages_in_order(found: spec_fn(Stage) -> bool, n: nat)
    ensures
        stage_after(found, 0) == Stage::AccumulatorCheck,
        found(Stage::AccumulatorCheck) ==> {
            &&& stage_after(found, 1) == Stage::PublicInputs
            &&& stage_after(found, 2) == Stage::BatchingRng
            &&& stage_after(found, 3) == Stage::KimchiDlogCheck
            &&& n >= 4 ==> stage_after(found, n) == Stage::Done(found(Stage::KimchiDlogCheck))
        },
        !found(Stage::AccumulatorCheck) && n >= 1 ==> stage_after(found, n) == Stage::Done(false),
    decreases n,
{
    reveal_with_fuel(stage_after, 5);
    if n > 4 {
        law_stages_in_order(found, (n - 1) as nat);
    }
}

/// What a stage finds makes no difference but in the two checks, and committing is the
/// end.
pub proof fn law_only_checks_decide(stage: Stage, ok: bool)
    ensures
        stage.following(ok) != stage.following(!ok) <==> stage == Stage::AccumulatorCheck || stage
            == Stage::KimchiDlogCheck,
        stage.following(ok) == stage <==> stage is Done,
        stage.following(ok) == Stage::Done(true) <==> stage == Stage::Done(true) || (stage
            == Stage::KimchiDlogCheck && ok),
        stage.following(ok) == Stage::Done(false) <==> stage == Stage::Done(false) || ((stage
            == Stage::KimchiDlogCheck || stage == Stage::AccumulatorCheck) && !ok),
{
}

/// Every stage but the last has a section of its own, named after what it does; the two
/// sections that no stage has are those around the setup and around all stages.
pub proof fn law_stages_have_their_own_section(a: Stage, b: Stage)
    ensures
        a.counted_under() is None <==> a is Done,
        a.counted_under() is Some && a.counted_under() == b.counted_under() ==> a == b,
        a.counted_under() matches Some(s) ==> {
            &&& s.name() == "accumulator_check"@ <==> a == Stage::AccumulatorCheck
            &&& s.name() == "public_inputs"@ <==> a == Stage::PublicInputs
            &&& s.name() == "batching_rng"@ <==> a == Stage::BatchingRng
            &&& s.name() == "kimchi_dlog_check"@ <==> a == Stage::KimchiDlogCheck
        },
{
    if let Some(s) = a.counted_under() {
        law_sections_have_names(s, s);
    }
}

/// Each section has its name, and no two have the same.
pub proof fn law_sections_have_names(s: Section, t: Section)
    ensures
        s.name() == t.name() ==> s == t,
        s.name() == "setup"@ <==> s == Section::Setup,
        s.name() == "verify"@ <==> s == Section::Verify,
        s.name() == "accumulator_check"@ <==> s == Section::AccumulatorCheck,
        s.name() == "public_inputs"@ <==> s == Section::PublicInputs,
        s.name() == "batching_rng"@ <==> s == Section::BatchingRng,
        s.name() == "kimchi_dlog_check"@ <==> s == Section::KimchiDlogCheck,
{
    reveal_strlit("setup");
    reveal_strlit("verify");
    reveal_strlit("accumulator_check");
    reveal_strlit("public_inputs");
    reveal_strlit("batching_rng");
    reveal_strlit("kimchi_dlog_check");
    assert("setup"@[0] == 's');
    assert("verify"@[0] == 'v');
    assert("accumulator_check"@[0] == 'a');
    assert("public_inputs"@[0] == 'p');
    assert("batching_rng"@[0] == 'b');
    assert("kimchi_dlog_check"@[0] == 'k');
}

/// A marker line is the tracker's word for a start or an end, then the section's name up
/// to the end of the line. So no two markers are the same line.
pub proof fn law_markers_name_their_section(s: Section, t: Section, a: bool, b: bool)
    ensures
        ({
            let word = if a {
                "cycle-tracker-report-start:"@
            } else {
                "cycle-tracker-report-end:"@
            };
            let line = s.marker(a);
            let n = line.len() as int;
            &&& n == word.len() + s.name().len() + 1
            &&& line.take(word.len() as int) == word
            &&& line.subrange(word.len() as int, n - 1) == s.name()
            &&& line.last() == '\n'
        }),
        s.marker(a) == t.marker(b) ==> s == t && a == b,
{
    reveal_strlit("cycle-tracker-report-start:");
    reveal_strlit("cycle-tracker-report-end:");
    reveal_strlit("\n");
    let start = "cycle-tracker-report-start:"@;
    let end = "cycle-tracker-report-end:"@;
    assert(start[21] == 's' && end[21] == 'e');
    let word = if a {
        start
    } else {
        end
    };
    let line = s.marker(a);
    let other = t.marker(b);
    let n = line.len() as int;
    assert(line.take(word.len() as int) =~= word);
    assert(line.subrange(word.len() as int, n - 1) =~= s.name());
    assert(line[21] == word[21]);
    if line == other {
        assert(other[21] == if b {
            start[21]
        } else {
            end[21]
        });
        assert(a == b);
        assert(other.subrange(word.len() as int, n - 1) =~= t.name());
        law_sections_have_names(s, t);
    }
}

} // verus!
