//! The names by which kernels, certifiers and modes are chosen.

use crate::certify::PrefixCertifierKind;
use crate::text::same_text;
use vstd::prelude::*;

verus! {

/// How the first trees of a row are evaluated.
#[derive(Clone, Copy, Debug, PartialEq, Eq, Structural)]
pub enum PrefixDirectKernel {
    Qs,
    HotExact96,
    HotExact128,
    HotExact192,
    HotExact256,
    HotExact384,
}

/// Whether a kernel evaluates the first trees node by node.
pub open spec fn hot_kernel(k: PrefixDirectKernel) -> bool {
    k != PrefixDirectKernel::Qs
}

/// Computes [`hot_kernel`].
pub fn is_hot_kernel(k: PrefixDirectKernel) -> (r: bool)
    ensures
        r == hot_kernel(k),
{
    k != PrefixDirectKernel::Qs
}

/// The name of a kernel.
pub open spec fn kernel_name(k: PrefixDirectKernel) -> Seq<char> {
    match k {
        PrefixDirectKernel::Qs => "qs"@,
        PrefixDirectKernel::HotExact96 => "hot_exact_96"@,
        PrefixDirectKernel::HotExact128 => "hot_exact_128"@,
        PrefixDirectKernel::HotExact192 => "hot_exact_192"@,
        PrefixDirectKernel::HotExact256 => "hot_exact_256"@,
        PrefixDirectKernel::HotExact384 => "hot_exact_384"@,
    }
}

/// The kernel of a name.
pub open spec fn kernel_named(s: Seq<char>) -> Option<PrefixDirectKernel> {
    if s == "qs"@ {
        Some(PrefixDirectKernel::Qs)
    } else if s == "hot_exact_96"@ {
        Some(PrefixDirectKernel::HotExact96)
    } else if s == "hot_exact_128"@ {
        Some(PrefixDirectKernel::HotExact128)
    } else if s == "hot_exact_192"@ {
        Some(PrefixDirectKernel::HotExact192)
    } else if s == "hot_exact_256"@ {
        Some(PrefixDirectKernel::HotExact256)
    } else if s == "hot_exact_384"@ {
        Some(PrefixDirectKernel::HotExact384)
    } else {
        None
    }
}

/// Finds the kernel of a name.
pub fn parse_prefix_direct_kernel(raw: &str) -> (r: Option<PrefixDirectKernel>)
    ensures
        r == kernel_named(raw@),
{
    if same_text(raw, "qs") {
        Some(PrefixDirectKernel::Qs)
    } else if same_text(raw, "hot_exact_96") {
        Some(PrefixDirectKernel::HotExact96)
    } else if same_text(raw, "hot_exact_128") {
        Some(PrefixDirectKernel::HotExact128)
    } else if same_text(raw, "hot_exact_192") {
        Some(PrefixDirectKernel::HotExact192)
    } else if same_text(raw, "hot_exact_256") {
        Some(PrefixDirectKernel::HotExact256)
    } else if same_text(raw, "hot_exact_384") {
        Some(PrefixDirectKernel::HotExact384)
    } else {
        None
    }
}

/// Gives the name of a kernel.
pub fn prefix_direct_kernel_str(kernel: PrefixDirectKernel) -> (r: &'static str)
    ensures
        r@ == kernel_name(kernel),
{
    match kernel {
        PrefixDirectKernel::Qs => "qs",
        PrefixDirectKernel::HotExact96 => "hot_exact_96",
        PrefixDirectKernel::HotExact128 => "hot_exact_128",
        PrefixDirectKernel::HotExact192 => "hot_exact_192",
        PrefixDirectKernel::HotExact256 => "hot_exact_256",
        PrefixDirectKernel::HotExact384 => "hot_exact_384",
    }
}

/// The name of a kernel names that kernel.
pub proof fn law_kernel_names_are_read_back(k: PrefixDirectKernel)
    ensures
        kernel_named(kernel_name(k)) == Some(k),
{
    reveal_strlit("qs");
    reveal_strlit("hot_exact_96");
    reveal_strlit("hot_exact_128");
    reveal_strlit("hot_exact_192");
    reveal_strlit("hot_exact_256");
    reveal_strlit("hot_exact_384");
    assert("hot_exact_128"@[10] != "hot_exact_192"@[10] || "hot_exact_128"@[11]
        != "hot_exact_192"@[11]);
    assert("hot_exact_128"@[10] == '1');
    assert("hot_exact_128"@[11] == '2');
    assert("hot_exact_192"@[11] == '9');
    assert("hot_exact_256"@[10] == '2');
    assert("hot_exact_384"@[10] == '3');
    assert("qs"@.len() == 2 && "hot_exact_96"@.len() == 12 && "hot_exact_128"@.len() == 13);
    assert("hot_exact_192"@[10] == '1');
}

/// The name of a certifier.
pub open spec fn certifier_name(k: PrefixCertifierKind) -> Seq<char> {
    match k {
        PrefixCertifierKind::TableV1 => "table_v1"@,
        PrefixCertifierKind::AtlasV1 => "atlas_v1"@,
        PrefixCertifierKind::MlpV1 => "mlp_v1"@,
    }
}

/// The certifier of a name.
pub open spec fn certifier_named(s: Seq<char>) -> Option<PrefixCertifierKind> {
    if s == "table_v1"@ {
        Some(PrefixCertifierKind::TableV1)
    } else if s == "atlas_v1"@ {
        Some(PrefixCertifierKind::AtlasV1)
    } else if s == "mlp_v1"@ {
        Some(PrefixCertifierKind::MlpV1)
    } else {
        None
    }
}

/// Finds the certifier of a name.
pub fn parse_prefix_certifier_kind(raw: &str) -> (r: Option<PrefixCertifierKind>)
    ensures
        r == certifier_named(raw@),
{
    if same_text(raw, "table_v1") {
        Some(PrefixCertifierKind::TableV1)
    } else if same_text(raw, "atlas_v1") {
        Some(PrefixCertifierKind::AtlasV1)
    } else if same_text(raw, "mlp_v1") {
        Some(PrefixCertifierKind::MlpV1)
    } else {
        None
    }
}

/// Gives the name of a certifier.
pub fn prefix_certifier_kind_str(kind: PrefixCertifierKind) -> (r: &'static str)
    ensures
        r@ == certifier_name(kind),
{
    match kind {
        PrefixCertifierKind::TableV1 => "table_v1",
        PrefixCertifierKind::AtlasV1 => "atlas_v1",
        PrefixCertifierKind::MlpV1 => "mlp_v1",
    }
}

/// The name of a certifier names that certifier.
pub proof fn law_certifier_names_are_read_back(k: PrefixCertifierKind)
    ensures
        certifier_named(certifier_name(k)) == Some(k),
{
    reveal_strlit("table_v1");
    reveal_strlit("atlas_v1");
    reveal_strlit("mlp_v1");
    assert("table_v1"@[0] == 't');
    assert("atlas_v1"@[0] == 'a');
    assert("mlp_v1"@[0] == 'm');
}

/// The ways to run the first trees beyond a single order.
#[derive(Clone, Copy, Debug, PartialEq, Eq, Structural)]
pub enum PrefixV4Mode {
    MultiOrderV1,
    PacketSchedulerV1,
    AnchorRescueV1,
    AnchorRescueLossyV1,
    CompiledPrefixV1,
    ConformalBandV1,
}

/// The mode of a name.
pub open spec fn v4_mode_named(s: Seq<char>) -> Option<PrefixV4Mode> {
    if s == "multi_order_v1"@ {
        Some(PrefixV4Mode::MultiOrderV1)
    } else if s == "packet_scheduler_v1"@ {
        Some(PrefixV4Mode::PacketSchedulerV1)
    } else if s == "anchor_rescue_v1"@ {
        Some(PrefixV4Mode::AnchorRescueV1)
    } else if s == "anchor_rescue_lossy_v1"@ {
        Some(PrefixV4Mode::AnchorRescueLossyV1)
    } else if s == "compiled_prefix_v1"@ {
        Some(PrefixV4Mode::CompiledPrefixV1)
    } else if s == "conformal_band_v1"@ {
        Some(PrefixV4Mode::ConformalBandV1)
    } else {
        None
    }
}

/// Finds the mode of a name.
pub fn parse_prefix_v4_mode(raw: &str) -> (r: Option<PrefixV4Mode>)
    ensures
        r == v4_mode_named(raw@),
{
    if same_text(raw, "multi_order_v1") {
        Some(PrefixV4Mode::MultiOrderV1)
    } else if same_text(raw, "packet_scheduler_v1") {
        Some(PrefixV4Mode::PacketSchedulerV1)
    } else if same_text(raw, "anchor_rescue_v1") {
        Some(PrefixV4Mode::AnchorRescueV1)
    } else if same_text(raw, "anchor_rescue_lossy_v1") {
        Some(PrefixV4Mode::AnchorRescueLossyV1)
    } else if same_text(raw, "compiled_prefix_v1") {
        Some(PrefixV4Mode::CompiledPrefixV1)
    } else if same_text(raw, "conformal_band_v1") {
        Some(PrefixV4Mode::ConformalBandV1)
    } else {
        None
    }
}

/// The number of a packet bank's name.
pub open spec fn packet_bank(s: Seq<char>) -> i8 {
    if s == "scout"@ {
        2
    } else if s == "reject"@ {
        1
    } else if s == "refer"@ {
        0
    } else {
        -1i8
    }
}

/// Finds the number of a packet bank's name.
pub fn parse_packet_bank(raw: &str) -> (r: i8)
    ensures
        r == packet_bank(raw@),
{
    if same_text(raw, "scout") {
        2
    } else if same_text(raw, "reject") {
        1
    } else if same_text(raw, "refer") {
        0
    } else {
        -1
    }
}

/// What to do with a row that the anchor could not decide.
#[derive(Clone, Copy, Debug, PartialEq, Eq, Structural)]
pub enum RescueAction {
    Fallback,
    RejectRescue,
    ReferRescue,
}

/// The rescue of a name.
pub open spec fn rescue_named(s: Seq<char>) -> Option<RescueAction> {
    if s == "fallback"@ {
        Some(RescueAction::Fallback)
    } else if s == "run_reject_rescue"@ {
        Some(RescueAction::RejectRescue)
    } else if s == "run_refer_rescue"@ {
        Some(RescueAction::ReferRescue)
    } else {
        None
    }
}

/// Finds the rescue of a name.
pub fn parse_rescue_action(raw: &str) -> (r: Option<RescueAction>)
    ensures
        r == rescue_named(raw@),
{
    if same_text(raw, "fallback") {
        Some(RescueAction::Fallback)
    } else if same_text(raw, "run_reject_rescue") {
        Some(RescueAction::RejectRescue)
    } else if same_text(raw, "run_refer_rescue") {
        Some(RescueAction::ReferRescue)
    } else {
        None
    }
}

/// The number under which a rescue is recorded.
pub open spec fn rescue_code(a: RescueAction) -> u8 {
    match a {
        RescueAction::Fallback => 1,
        RescueAction::RejectRescue => 2,
        RescueAction::ReferRescue => 3,
    }
}

/// Gives the number under which a rescue is recorded.
pub fn rescue_route_code(action: RescueAction) -> (r: u8)
    ensures
        r == rescue_code(action),
{
    match action {
        RescueAction::Fallback => 1,
        RescueAction::RejectRescue => 2,
        RescueAction::ReferRescue => 3,
    }
}

/// What the rows of a dispatched slot are held against.
#[derive(Clone, Copy, Debug, PartialEq, Eq, Structural)]
pub enum DispatchThresholdMode {
    Tau,
    Zero,
}

/// The threshold mode of a name.
pub open spec fn threshold_mode_named(s: Seq<char>) -> Option<DispatchThresholdMode> {
    if s == "tau"@ {
        Some(DispatchThresholdMode::Tau)
    } else if s == "zero"@ {
        Some(DispatchThresholdMode::Zero)
    } else {
        None
    }
}

/// Finds the threshold mode of a name.
pub fn parse_dispatch_threshold_mode(raw: &str) -> (r: Option<DispatchThresholdMode>)
    ensures
        r == threshold_mode_named(raw@),
{
    if same_text(raw, "tau") {
        Some(DispatchThresholdMode::Tau)
    } else if same_text(raw, "zero") {
        Some(DispatchThresholdMode::Zero)
    } else {
        None
    }
}

/// What is asked of the trees.
#[derive(Clone, Copy, Debug, PartialEq, Eq, Structural)]
pub enum InferMode {
    RouteFast,
    MarginExact,
    RouteExactReordered,
    MarginExactReordered,
    RouteApprox,
    L2RouteExactReordered,
    L2RouteApprox,
}

/// Whether splits compare ranks or values.
#[derive(Clone, Copy, Debug, PartialEq, Eq, Structural)]
pub enum RankMode {
    RankPack,
    Float,
}

/// Whether rows stop as soon as the remaining trees cannot change the side.
pub open spec fn route_mode(m: InferMode) -> bool {
    m == InferMode::RouteFast || m == InferMode::RouteExactReordered || m
        == InferMode::L2RouteExactReordered
}

/// Whether rows are routed by the second stage.
pub open spec fn l2_route_mode(m: InferMode) -> bool {
    m == InferMode::L2RouteExactReordered || m == InferMode::L2RouteApprox
}

/// Whether rows may stop by the approximate policy.
pub open spec fn approx_mode(m: InferMode) -> bool {
    m == InferMode::RouteApprox || m == InferMode::L2RouteApprox
}

/// Computes [`route_mode`].
pub fn is_route_mode(mode: InferMode) -> (r: bool)
    ensures
        r == route_mode(mode),
{
    mode == InferMode::RouteFast || mode == InferMode::RouteExactReordered || mode
        == InferMode::L2RouteExactReordered
}

/// Computes [`l2_route_mode`].
pub fn is_l2_route_mode(mode: InferMode) -> (r: bool)
    ensures
        r == l2_route_mode(mode),
{
    mode == InferMode::L2RouteExactReordered || mode == InferMode::L2RouteApprox
}

/// Computes [`approx_mode`].
pub fn is_approx_mode(mode: InferMode) -> (r: bool)
    ensures
        r == approx_mode(mode),
{
    mode == InferMode::RouteApprox || mode == InferMode::L2RouteApprox
}

/// Names the column of scores.
pub fn score_col_name(mode: InferMode) -> (r: &'static str)
    ensures
        r@ == (if mode == InferMode::MarginExact || mode == InferMode::MarginExactReordered {
            "l1_score"@
        } else if l2_route_mode(mode) {
            "route_score"@
        } else {
            "prefix_margin"@
        }),
{
    match mode {
        InferMode::MarginExact => "l1_score",
        InferMode::MarginExactReordered => "l1_score",
        InferMode::RouteFast => "prefix_margin",
        InferMode::RouteExactReordered => "prefix_margin",
        InferMode::RouteApprox => "prefix_margin",
        InferMode::L2RouteExactReordered => "route_score",
        InferMode::L2RouteApprox => "route_score",
    }
}

/// Names the column of decisions.
pub fn decision_col_name(mode: InferMode) -> (r: &'static str)
    ensures
        r@ == (if l2_route_mode(mode) {
            "l2_decision"@
        } else {
            "l1_decision"@
        }),
{
    if is_l2_route_mode(mode) {
        "l2_decision"
    } else {
        "l1_decision"
    }
}

/// Names the decision of rows at or above the threshold.
pub fn positive_label(mode: InferMode) -> (r: &'static str)
    ensures
        r@ == (if l2_route_mode(mode) {
            "REJECT"@
        } else {
            "PASS"@
        }),
{
    if is_l2_route_mode(mode) {
        "REJECT"
    } else {
        "PASS"
    }
}

/// Names the decision of rows below the threshold.
pub fn negative_label(mode: InferMode) -> (r: &'static str)
    ensures
        r@ == "REFER"@,
{
    "REFER"
}

} // verus!
