//! Operation manifests: what an operation declares of itself.
use crate::ir::{Error, ErrorClass, ResourceKind};
use crate::json::same_text;
use vstd::prelude::*;

verus! {

/// How far results of an operation may differ between implementations.
#[derive(Debug, Clone, Copy, PartialEq, Eq, Structural)]
pub enum DeterminismTier {
    Exact,
    Bounded,
}

/// How an operation's output regions depend on its input regions.
#[derive(Debug, Clone, Copy, PartialEq, Eq, Structural)]
pub enum RoiCategory {
    Pointwise,
    Geometric,
    FullDomain,
}

/// The region policy of an operation.
#[derive(Debug, Clone, Copy, PartialEq, Eq, Structural)]
pub struct RoiPolicy {
    pub category: RoiCategory,
    pub halo_px: Option<u32>,
}

/// An input port.
#[derive(Debug, Clone, Copy, PartialEq, Eq)]
pub struct InputSpec {
    pub name: &'static str,
    pub kind: ResourceKind,
    pub required: bool,
    pub doc: &'static str,
}

/// An output port.
#[derive(Debug, Clone, Copy, PartialEq, Eq)]
pub struct OutputSpec {
    pub name: &'static str,
    pub kind: ResourceKind,
    pub doc: &'static str,
}

/// The type of a parameter.
#[derive(Debug, Clone, Copy, PartialEq, Eq, Structural)]
pub enum ParamType {
    Integer,
    Float,
    String,
    Json,
}

/// The unit of a parameter.
#[derive(Debug, Clone, Copy, PartialEq, Eq, Structural)]
pub enum ParamUnit {
    Pixels,
    Radians,
    Ratio,
}

/// A default value: a text, or a number by its binary64 pattern.
#[derive(Debug, Clone, Copy, PartialEq, Eq)]
pub enum Literal {
    Text(&'static str),
    Number(u64),
}

/// A parameter.
#[derive(Debug, Clone, PartialEq, Eq)]
pub struct ParamSpec {
    pub name: &'static str,
    pub ty: ParamType,
    pub unit: Option<ParamUnit>,
    pub required: bool,
    pub default: Option<Literal>,
    pub choices: Vec<&'static str>,
    pub doc: &'static str,
}

/// What a parameter is.
pub ghost struct ParamView {
    pub name: &'static str,
    pub ty: ParamType,
    pub unit: Option<ParamUnit>,
    pub required: bool,
    pub default: Option<Literal>,
    pub choices: Seq<&'static str>,
    pub doc: &'static str,
}

impl View for ParamSpec {
    type V = ParamView;

    open spec fn view(&self) -> ParamView {
        ParamView {
            name: self.name,
            ty: self.ty,
            unit: self.unit,
            required: self.required,
            default: self.default,
            choices: self.choices@,
            doc: self.doc,
        }
    }
}

/// An implementation of an operation.
#[derive(Debug, Clone, Copy, PartialEq, Eq)]
pub struct ImplId {
    pub backend: &'static str,
    pub name: &'static str,
    pub version: u32,
}

/// The reference implementation that every operation has.
#[verifier::allow_in_spec]
pub fn reference_impl() -> ImplId
    returns
        (ImplId { backend: "cpu", name: "reference", version: 1 }),
{
    ImplId { backend: "cpu", name: "reference", version: 1 }
}

/// The ways in which an operation is verified.
#[derive(Debug, Clone, Copy, PartialEq, Eq, Structural)]
pub enum VerificationCategory {
    BuildHygiene,
    SchemaContract,
    AnalyticFixtures,
    PropertyTests,
    Metamorphic,
    Differential,
    Perceptual,
    Goldens,
    Fuzzing,
    Performance,
}

/// Whether a category is covered, or why it does not apply.
#[derive(Debug, Clone, Copy, PartialEq, Eq)]
pub enum CategoryStatus {
    Covered,
    NotApplicable(&'static str),
}

/// What an operation declares of its verification.
#[derive(Debug, Clone, PartialEq, Eq)]
pub struct TestMetadata {
    pub has_analytic_reference: bool,
    pub has_property_tests: bool,
    pub golden_fixtures: Vec<&'static str>,
    pub not_applicable_reason: &'static str,
    pub verification: Vec<(VerificationCategory, CategoryStatus)>,
}

/// What is declared of an operation's verification.
pub ghost struct TestView {
    pub has_analytic_reference: bool,
    pub has_property_tests: bool,
    pub golden_fixtures: Seq<&'static str>,
    pub not_applicable_reason: &'static str,
    pub verification: Seq<(VerificationCategory, CategoryStatus)>,
}

impl View for TestMetadata {
    type V = TestView;

    open spec fn view(&self) -> TestView {
        TestView {
            has_analytic_reference: self.has_analytic_reference,
            has_property_tests: self.has_property_tests,
            golden_fixtures: self.golden_fixtures@,
            not_applicable_reason: self.not_applicable_reason,
            verification: self.verification@,
        }
    }
}

/// What an operation declares of itself.
#[derive(Debug, Clone, PartialEq, Eq)]
pub struct OperationManifest {
    pub id: &'static str,
    pub impl_version: u32,
    pub summary: &'static str,
    pub determinism: DeterminismTier,
    pub roi: RoiPolicy,
    pub inputs: Vec<InputSpec>,
    pub outputs: Vec<OutputSpec>,
    pub params: Vec<ParamSpec>,
    pub implementations: Vec<ImplId>,
    pub test: TestMetadata,
}

/// What a manifest says.
pub ghost struct ManifestView {
    pub id: &'static str,
    pub impl_version: u32,
    pub summary: &'static str,
    pub determinism: DeterminismTier,
    pub roi: RoiPolicy,
    pub inputs: Seq<InputSpec>,
    pub outputs: Seq<OutputSpec>,
    pub params: Seq<ParamView>,
    pub implementations: Seq<ImplId>,
    pub test: TestView,
}

impl View for OperationManifest {
    type V = ManifestView;

    open spec fn view(&self) -> ManifestView {
        ManifestView {
            id: self.id,
            impl_version: self.impl_version,
            summary: self.summary,
            determinism: self.determinism,
            roi: self.roi,
            inputs: self.inputs@,
            outputs: self.outputs@,
            params: self.params@.map_values(|p: ParamSpec| p@),
            implementations: self.implementations@,
            test: self.test@,
        }
    }
}

/// The categories that every operation covers.
pub open spec fn covered() -> Seq<(VerificationCategory, CategoryStatus)> {
    seq![
        (VerificationCategory::BuildHygiene, CategoryStatus::Covered),
        (VerificationCategory::SchemaContract, CategoryStatus::Covered),
        (VerificationCategory::AnalyticFixtures, CategoryStatus::Covered),
        (VerificationCategory::PropertyTests, CategoryStatus::Covered),
        (VerificationCategory::Metamorphic, CategoryStatus::Covered),
        (VerificationCategory::Goldens, CategoryStatus::Covered),
        (VerificationCategory::Fuzzing, CategoryStatus::Covered),
        (VerificationCategory::Performance, CategoryStatus::Covered),
    ]
}

/// What an operation declares of its verification: the common categories, and why no perceptual
/// measure applies where a reason is given.
pub open spec fn tests_of(perceptual: Option<&'static str>) -> TestView {
    TestView {
        has_analytic_reference: true,
        has_property_tests: true,
        golden_fixtures: Seq::empty(),
        not_applicable_reason: "",
        verification: match perceptual {
            None => covered(),
            Some(reason) => covered().push(
                (VerificationCategory::Perceptual, CategoryStatus::NotApplicable(reason)),
            ),
        },
    }
}

/// Declare an operation's verification.
pub fn test_metadata(perceptual: Option<&'static str>) -> (test: TestMetadata)
    ensures
        test@ == tests_of(perceptual),
{
    let mut verification: Vec<(VerificationCategory, CategoryStatus)> = vec![
        (VerificationCategory::BuildHygiene, CategoryStatus::Covered),
        (VerificationCategory::SchemaContract, CategoryStatus::Covered),
        (VerificationCategory::AnalyticFixtures, CategoryStatus::Covered),
        (VerificationCategory::PropertyTests, CategoryStatus::Covered),
        (VerificationCategory::Metamorphic, CategoryStatus::Covered),
        (VerificationCategory::Goldens, CategoryStatus::Covered),
        (VerificationCategory::Fuzzing, CategoryStatus::Covered),
        (VerificationCategory::Performance, CategoryStatus::Covered),
    ];
    if let Some(reason) = perceptual {
        verification.push(
            (VerificationCategory::Perceptual, CategoryStatus::NotApplicable(reason)),
        );
    }
    let golden_fixtures: Vec<&'static str> = Vec::new();
    TestMetadata {
        has_analytic_reference: true,
        has_property_tests: true,
        golden_fixtures,
        not_applicable_reason: "",
        verification,
    }
}

/// The manifest's ports are those that the operation itself declares, in the same order.
pub open spec fn agrees(
    m: ManifestView,
    inputs: Seq<(&'static str, ResourceKind)>,
    outputs: Seq<(&'static str, ResourceKind)>,
) -> bool {
    &&& m.inputs.len() == inputs.len()
    &&& forall|i: int|
        0 <= i < inputs.len() ==> (#[trigger] m.inputs[i]).name@ == inputs[i].0@ && m.inputs[i].kind
            == inputs[i].1
    &&& m.outputs.len() == outputs.len()
    &&& forall|i: int|
        0 <= i < outputs.len() ==> (#[trigger] m.outputs[i]).name@ == outputs[i].0@
            && m.outputs[i].kind == outputs[i].1
}

/// A manifest and its operation disagree, or a manifest is unsound.
pub const E_MANIFEST: &'static str = "E_MANIFEST";

pub const PORTS_DISAGREE: &'static str = "the manifest's ports differ from those of the operation";

pub const NO_IMPLEMENTATION: &'static str = "the manifest names no implementation";

pub const REQUIRED_DEFAULT: &'static str = "a required parameter has a default";

pub const DEFAULT_NOT_CHOICE: &'static str = "a parameter's default is none of its choices";

pub const CATEGORY_MISSING: &'static str = "a verification category is neither covered nor excused";

/// A refusal of a manifest.
#[verifier::allow_in_spec]
pub fn manifest_error(message: &'static str) -> Error
    returns
        (Error::new(ErrorClass::Schema, E_MANIFEST, message)),
{
    Error::new(ErrorClass::Schema, E_MANIFEST, message)
}

/// Check that a manifest's ports are those that the operation itself declares.
pub fn check_contract_consistency(
    m: &OperationManifest,
    inputs: &Vec<(&'static str, ResourceKind)>,
    outputs: &Vec<(&'static str, ResourceKind)>,
) -> (r: Result<(), Error>)
    ensures
        r == (if agrees(m@, inputs@, outputs@) {
            Ok(())
        } else {
            Err(manifest_error(PORTS_DISAGREE))
        }),
{
    if m.inputs.len() != inputs.len() || m.outputs.len() != outputs.len() {
        return Err(manifest_error(PORTS_DISAGREE));
    }
    let mut i: usize = 0;
    while i < inputs.len()
        invariant
            i <= inputs@.len(),
            m.inputs@.len() == inputs@.len(),
            forall|j: int|
                0 <= j < i ==> (#[trigger] m@.inputs[j]).name@ == inputs@[j].0@ && m@.inputs[j].kind
                    == inputs@[j].1,
        decreases inputs@.len() - i,
    {
        if !same_text(m.inputs[i].name, inputs[i].0) || m.inputs[i].kind != inputs[i].1 {
            return Err(manifest_error(PORTS_DISAGREE));
        }
        i = i + 1;
    }
    let mut k: usize = 0;
    while k < outputs.len()
        invariant
            k <= outputs@.len(),
            m.outputs@.len() == outputs@.len(),
            forall|j: int|
                0 <= j < k ==> (#[trigger] m@.outputs[j]).name@ == outputs@[j].0@
                    && m@.outputs[j].kind == outputs@[j].1,
        decreases outputs@.len() - k,
    {
        if !same_text(m.outputs[k].name, outputs[k].0) || m.outputs[k].kind != outputs[k].1 {
            return Err(manifest_error(PORTS_DISAGREE));
        }
        k = k + 1;
    }
    Ok(())
}

/// The tokens hold a text.
pub open spec fn offers(choices: Seq<&'static str>, token: Seq<char>) -> bool {
    exists|i: int| 0 <= i < choices.len() && (#[trigger] choices[i])@ == token
}

/// A parameter's default is in order: none of a required parameter, and one of the choices where
/// there are any.
pub open spec fn param_fault(p: ParamView) -> Option<Error> {
    if p.required && p.default is Some {
        Some(manifest_error(REQUIRED_DEFAULT))
    } else if p.choices.len() > 0 && (p.default matches Some(Literal::Text(token)) && !offers(
        p.choices,
        token@,
    )) {
        Some(manifest_error(DEFAULT_NOT_CHOICE))
    } else {
        None
    }
}

/// The first fault among the first `n` parameters.
pub open spec fn params_fault(params: Seq<ParamView>, n: nat) -> Option<Error>
    decreases n,
{
    if n == 0 {
        None
    } else {
        match params_fault(params, (n - 1) as nat) {
            Some(e) => Some(e),
            None => param_fault(params[n - 1]),
        }
    }
}

/// What is wrong with a manifest, if anything is.
pub open spec fn fault(m: ManifestView) -> Option<Error> {
    if m.implementations.len() == 0 {
        Some(manifest_error(NO_IMPLEMENTATION))
    } else {
        params_fault(m.params, m.params.len())
    }
}

/// Whether the tokens hold a text.
fn offered(choices: &Vec<&'static str>, token: &str) -> (r: bool)
    ensures
        r == offers(choices@, token@),
{
    let mut i: usize = 0;
    while i < choices.len()
        invariant
            i <= choices@.len(),
            forall|j: int| 0 <= j < i ==> (#[trigger] choices@[j])@ != token@,
        decreases choices@.len() - i,
    {
        if same_text(choices[i], token) {
            return true;
        }
        i = i + 1;
    }
    false
}

/// Check a parameter's default.
fn check_param(p: &ParamSpec) -> (r: Option<Error>)
    ensures
        r == param_fault(p@),
{
    if p.required && p.default.is_some() {
        return Some(manifest_error(REQUIRED_DEFAULT));
    }
    if p.choices.len() > 0 {
        if let Some(Literal::Text(token)) = p.default {
            if !offered(&p.choices, token) {
                return Some(manifest_error(DEFAULT_NOT_CHOICE));
            }
        }
    }
    None
}

/// A fault among the first parameters is one of all.
proof fn lemma_fault_stays(params: Seq<ParamView>, few: nat, many: nat)
    requires
        few <= many,
        params_fault(params, few) is Some,
    ensures
        params_fault(params, many) == params_fault(params, few),
    decreases many,
{
    if few < many {
        lemma_fault_stays(params, few, (many - 1) as nat);
    }
}

impl OperationManifest {
    /// Check that the manifest names an implementation and that its parameters' defaults are in
    /// order.
    pub fn validate(&self) -> (r: Result<(), Error>)
        ensures
            r == (match fault(self@) {
                None => Ok(()),
                Some(e) => Err(e),
            }),
    {
        if self.implementations.len() == 0 {
            return Err(manifest_error(NO_IMPLEMENTATION));
        }
        let mut i: usize = 0;
        while i < self.params.len()
            invariant
                self@.implementations.len() > 0,
                self@.params.len() == self.params@.len(),
                i <= self.params@.len(),
                params_fault(self@.params, i as nat) is None,
            decreases self.params@.len() - i,
        {
            if let Some(e) = check_param(&self.params[i]) {
                proof {
                    lemma_fault_stays(self@.params, (i + 1) as nat, self@.params.len());
                }
                return Err(e);
            }
            i = i + 1;
        }
        Ok(())
    }
}

/// The category is declared.
pub open spec fn declares(test: TestView, category: VerificationCategory) -> bool {
    exists|i: int| 0 <= i < test.verification.len() && (#[trigger] test.verification[i]).0 == category
}

/// A category is answered for: it is declared, or it is excused. With a single implementation there
/// is nothing to compare it to, and an exact operation has no perceptual measure.
pub open spec fn answered(m: ManifestView, category: VerificationCategory) -> bool {
    ||| declares(m.test, category)
    ||| category == VerificationCategory::Differential && m.implementations.len() == 1
    ||| category == VerificationCategory::Perceptual && m.determinism == DeterminismTier::Exact
}

/// Every category is answered for.
pub open spec fn all_answered(m: ManifestView) -> bool {
    forall|category: VerificationCategory| #[trigger] answered(m, category)
}

/// Whether a category is declared.
fn is_declared(test: &TestMetadata, category: VerificationCategory) -> (r: bool)
    ensures
        r == declares(test@, category),
{
    let mut i: usize = 0;
    while i < test.verification.len()
        invariant
            i <= test.verification@.len(),
            forall|j: int| 0 <= j < i ==> (#[trigger] test@.verification[j]).0 != category,
        decreases test.verification@.len() - i,
    {
        if test.verification[i].0 == category {
            return true;
        }
        i = i + 1;
    }
    false
}

/// Check that every verification category is answered for.
pub fn verify_categories(m: &OperationManifest) -> (r: Result<(), Error>)
    ensures
        r == (if all_answered(m@) {
            Ok(())
        } else {
            Err(manifest_error(CATEGORY_MISSING))
        }),
{
    let single: bool = m.implementations.len() == 1;
    let exact: bool = m.determinism == DeterminismTier::Exact;
    let answered_all: bool = is_declared(&m.test, VerificationCategory::BuildHygiene)
        && is_declared(&m.test, VerificationCategory::SchemaContract) && is_declared(
        &m.test,
        VerificationCategory::AnalyticFixtures,
    ) && is_declared(&m.test, VerificationCategory::PropertyTests) && is_declared(
        &m.test,
        VerificationCategory::Metamorphic,
    ) && (single || is_declared(&m.test, VerificationCategory::Differential)) && (exact
        || is_declared(&m.test, VerificationCategory::Perceptual)) && is_declared(
        &m.test,
        VerificationCategory::Goldens,
    ) && is_declared(&m.test, VerificationCategory::Fuzzing) && is_declared(
        &m.test,
        VerificationCategory::Performance,
    );
    if answered_all {
        assert forall|category: VerificationCategory| #[trigger] answered(m@, category) by {
            match category {
                VerificationCategory::BuildHygiene => {},
                VerificationCategory::SchemaContract => {},
                VerificationCategory::AnalyticFixtures => {},
                VerificationCategory::PropertyTests => {},
                VerificationCategory::Metamorphic => {},
                VerificationCategory::Differential => {},
                VerificationCategory::Perceptual => {},
                VerificationCategory::Goldens => {},
                VerificationCategory::Fuzzing => {},
                VerificationCategory::Performance => {},
            }
        }
        Ok(())
    } else {
        proof {
            if all_answered(m@) {
                assert(answered(m@, VerificationCategory::BuildHygiene));
                assert(answered(m@, VerificationCategory::SchemaContract));
                assert(answered(m@, VerificationCategory::AnalyticFixtures));
                assert(answered(m@, VerificationCategory::PropertyTests));
                assert(answered(m@, VerificationCategory::Metamorphic));
                assert(answered(m@, VerificationCategory::Differential));
                assert(answered(m@, VerificationCategory::Perceptual));
                assert(answered(m@, VerificationCategory::Goldens));
                assert(answered(m@, VerificationCategory::Fuzzing));
                assert(answered(m@, VerificationCategory::Performance));
            }
        }
        Err(manifest_error(CATEGORY_MISSING))
    }
}

/// With the common categories covered, one implementation, and exact results or a reason against a
/// perceptual measure, every category is answered for.
pub proof fn lemma_answered(m: ManifestView, perceptual: Option<&'static str>)
    requires
        m.test == tests_of(perceptual),
        m.implementations.len() == 1,
        m.determinism == DeterminismTier::Exact || perceptual is Some,
    ensures
        all_answered(m),
{
    let verification = m.test.verification;
    assert forall|category: VerificationCategory| #[trigger] answered(m, category) by {
        match category {
            VerificationCategory::BuildHygiene => {
                assert(verification[0].0 == category);
            },
            VerificationCategory::SchemaContract => {
                assert(verification[1].0 == category);
            },
            VerificationCategory::AnalyticFixtures => {
                assert(verification[2].0 == category);
            },
            VerificationCategory::PropertyTests => {
                assert(verification[3].0 == category);
            },
            VerificationCategory::Metamorphic => {
                assert(verification[4].0 == category);
            },
            VerificationCategory::Differential => {},
            VerificationCategory::Perceptual => {
                if perceptual is Some {
                    assert(verification[8].0 == category);
                }
            },
            VerificationCategory::Goldens => {
                assert(verification[5].0 == category);
            },
            VerificationCategory::Fuzzing => {
                assert(verification[6].0 == category);
            },
            VerificationCategory::Performance => {
                assert(verification[7].0 == category);
            },
        }
    }
}

} // verus!
