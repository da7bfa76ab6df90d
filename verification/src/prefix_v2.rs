//! Models prepared for rows without missing values: the stages of the first trees, and the
//! description that ties them to the other files.

use crate::bundle::ResolvedPrefixCalBundle;
use crate::certify::PrefixCertifierKind;
use crate::kinds::{
    certifier_name, kernel_name, prefix_certifier_kind_str, prefix_direct_kernel_str,
    PrefixDirectKernel,
};
use crate::layout::{
    build_prefix_v2_hot_stage_plan, stage_at, PrefixV2HotStagePlan, StageMatchError,
};
use crate::paths::{
    asked, beside, default_certify_plan_path, default_compiled_hot_pack_path,
    default_late_segment_manifest_path, default_prefix_v2_hot_stage_plan_path, directory,
    file_name_string, in_directory, joined, last_part, path_seen_from, seen_from, suffixed, tells,
};
use crate::prefix_runtime::LoadedPrefixRuntime;
use crate::text::{same_text, text_of};
use vstd::prelude::*;

verus! {

/// The description of a prepared model.
#[derive(Debug)]
pub struct PrefixV2Manifest {
    pub format: String,
    pub direct_kernel: String,
    pub certifier_kind: String,
    pub compiled_hot_pack_file: String,
    pub certify_plan_file: Option<String>,
    pub late_segment_manifest_file: Option<String>,
    pub hot_stage_plan_file: String,
}

/// Why a model cannot be prepared, or a description is not one of it.
#[derive(Clone, Copy, Debug, PartialEq, Eq, Structural)]
pub enum PrefixV2Error {
    NoHotPackPath,
    Format,
    DirectKernel,
    CertifierKind,
    NoCompiledHotPack,
    NoCertifyPlan,
    NoLateSegments,
}

/// Whether a model has late stretches.
pub open spec fn has_late_segments(rt: LoadedPrefixRuntime) -> bool {
    rt.late_segments matches Some(s) && s@.len() > 0
}

/// Whether a model has all that preparing it takes: the pack of the first trees on file, stages,
/// a layout, a plan, the compact trees and late stretches.
pub open spec fn preparable(has_hot_path: bool, rt: LoadedPrefixRuntime) -> bool {
    &&& has_hot_path
    &&& rt.hot_stage_plan is Some
    &&& rt.hot_checkpoint_layout is Some
    &&& rt.certify_plan is Some
    &&& rt.compiled_hot_pack is Some
    &&& has_late_segments(rt)
}

fn late_segments_there(rt: &LoadedPrefixRuntime) -> (r: bool)
    ensures
        r == has_late_segments(*rt),
{
    match &rt.late_segments {
        Some(s) => s.len() > 0,
        None => false,
    }
}

/// What is to be done about preparing a model.
#[derive(Debug)]
pub enum Preparation {
    /// Nothing: the model lacks what it takes.
    Unfit,
    /// The stages do not go with the checkpoint slots.
    Mismatch(StageMatchError),
    /// The description is on file: read it.
    OnFile,
    /// The stages were made: keep them, and then the description.
    Made(PrefixV2HotStagePlan),
}

/// Decides about preparing a model, and makes the stages where they are to be made.
pub fn maybe_prepare_prefix_v2(
    has_hot_path: bool,
    runtime: &LoadedPrefixRuntime,
    manifest_on_file: bool,
) -> (r: Preparation)
    ensures
        if !preparable(has_hot_path, *runtime) {
            r == Preparation::Unfit
        } else if manifest_on_file {
            r == Preparation::OnFile
        } else {
            let cps = runtime.hot_stage_plan->Some_0.checkpoints@;
            let offs = runtime.hot_stage_plan->Some_0.feature_offsets@;
            let slots = runtime.hot_checkpoint_layout->Some_0.hot_indices@;
            if cps.len() != slots.len() {
                r == Preparation::Mismatch(
                    StageMatchError::Slots {
                        checkpoints: cps.len() as usize,
                        slots: slots.len() as usize,
                    },
                )
            } else if offs.len() != cps.len() + 1 {
                r == Preparation::Mismatch(
                    StageMatchError::Offsets {
                        offsets: offs.len() as usize,
                        checkpoints: cps.len() as usize,
                    },
                )
            } else {
                r matches Preparation::Made(p) && p.hot_feature_ids@
                    == runtime.hot_stage_plan->Some_0.hot_feature_ids@ && p.stages@ == Seq::new(
                    cps.len(),
                    |i: int| stage_at(cps, offs, slots, i),
                )
            }
        },
{
    if !has_hot_path {
        return Preparation::Unfit;
    }
    match (&runtime.hot_stage_plan, &runtime.hot_checkpoint_layout) {
        (Some(stages), Some(layout)) => {
            if runtime.certify_plan.is_none() || runtime.compiled_hot_pack.is_none()
                || !late_segments_there(runtime) {
                return Preparation::Unfit;
            }
            if manifest_on_file {
                return Preparation::OnFile;
            }
            match build_prefix_v2_hot_stage_plan(stages, layout.hot_indices.as_slice()) {
                Ok(p) => Preparation::Made(p),
                Err(e) => Preparation::Mismatch(e),
            }
        },
        _ => Preparation::Unfit,
    }
}

/// The name of a file, where it is there.
pub open spec fn name_if_there(m: spec_fn(Seq<char>) -> bool, path: Seq<char>) -> Option<Seq<char>> {
    if m(path) {
        Some(suffixed(last_part(path), Seq::empty(), path))
    } else {
        None
    }
}

/// Whether a description is the one of a model whose first trees lie at `hot`, seen from the
/// directory `base`.
pub open spec fn describes(
    m: spec_fn(Seq<char>) -> bool,
    d: PrefixV2Manifest,
    resolved: ResolvedPrefixCalBundle,
    hot: Seq<char>,
    kernel: PrefixDirectKernel,
    kind: PrefixCertifierKind,
    base: Seq<char>,
) -> bool {
    &&& d.format@ == "L2PrefixV2"@
    &&& d.direct_kernel@ == kernel_name(kernel)
    &&& d.certifier_kind@ == certifier_name(kind)
    &&& d.compiled_hot_pack_file@ == seen_from(
        beside(hot, ".compiled.bin"@, "hot_prefix.compiled.bin"@),
        base,
    )
    &&& text_of(d.certify_plan_file) == match resolved.atlas_bin {
        Some(a) => name_if_there(m, beside(a@, ".certify.bin"@, "l2_certify.bin"@)),
        None => None,
    }
    &&& text_of(d.late_segment_manifest_file) == name_if_there(
        m,
        beside(resolved.qs_pack@, ".late_segments.json"@, "late_segments.json"@),
    )
    &&& d.hot_stage_plan_file@ == seen_from(
        beside(hot, ".prefix_v2.hot_stage.bin"@, "prefix_v2.hot_stage.bin"@),
        base,
    )
}

fn find_name<P: Fn(&str) -> bool>(present: &P, path: &str) -> (r: Option<String>)
    requires
        asked(*present),
    ensures
        forall|m: spec_fn(Seq<char>) -> bool| #[trigger]
            tells(*present, m) ==> text_of(r) == name_if_there(m, path@),
{
    let there: bool = present(path);
    if there {
        Some(file_name_string(path))
    } else {
        None
    }
}

/// Describes a prepared model.
pub fn build_prefix_v2_manifest<P: Fn(&str) -> bool>(
    present: &P,
    resolved: &ResolvedPrefixCalBundle,
    runtime: &LoadedPrefixRuntime,
    base_dir: &str,
) -> (r: Result<PrefixV2Manifest, PrefixV2Error>)
    requires
        asked(*present),
    ensures
        match resolved.hot_exact_prefix_pack {
            None => r == Err::<PrefixV2Manifest, PrefixV2Error>(PrefixV2Error::NoHotPackPath),
            Some(hot) => r is Ok && forall|m: spec_fn(Seq<char>) -> bool| #[trigger]
                tells(*present, m) ==> describes(
                    m,
                    r->Ok_0,
                    *resolved,
                    hot@,
                    runtime.direct_kernel,
                    runtime.certifier_kind,
                    base_dir@,
                ),
        },
{
    let hot: &str = match &resolved.hot_exact_prefix_pack {
        None => {
            return Err(PrefixV2Error::NoHotPackPath);
        },
        Some(h) => h.as_str(),
    };
    let compiled_path: String = default_compiled_hot_pack_path(hot);
    let stages_path: String = default_prefix_v2_hot_stage_plan_path(hot);
    let certify_plan_file: Option<String> = match &resolved.atlas_bin {
        Some(a) => {
            let path: String = default_certify_plan_path(a.as_str());
            find_name(present, path.as_str())
        },
        None => None,
    };
    let late_path: String = default_late_segment_manifest_path(resolved.qs_pack.as_str());
    let late_segment_manifest_file: Option<String> = find_name(present, late_path.as_str());
    Ok(
        PrefixV2Manifest {
            format: "L2PrefixV2".to_owned(),
            direct_kernel: prefix_direct_kernel_str(runtime.direct_kernel).to_owned(),
            certifier_kind: prefix_certifier_kind_str(runtime.certifier_kind).to_owned(),
            compiled_hot_pack_file: path_seen_from(compiled_path.as_str(), base_dir),
            certify_plan_file,
            late_segment_manifest_file,
            hot_stage_plan_file: path_seen_from(stages_path.as_str(), base_dir),
        },
    )
}

/// What keeps a description from being one of a model.
pub open spec fn manifest_fault(d: PrefixV2Manifest, rt: LoadedPrefixRuntime) -> Option<
    PrefixV2Error,
> {
    if d.format@ != "L2PrefixV2"@ {
        Some(PrefixV2Error::Format)
    } else if d.direct_kernel@ != kernel_name(rt.direct_kernel) {
        Some(PrefixV2Error::DirectKernel)
    } else if d.certifier_kind@ != certifier_name(rt.certifier_kind) {
        Some(PrefixV2Error::CertifierKind)
    } else if rt.compiled_hot_pack is None {
        Some(PrefixV2Error::NoCompiledHotPack)
    } else if rt.certify_plan is None {
        Some(PrefixV2Error::NoCertifyPlan)
    } else if !has_late_segments(rt) {
        Some(PrefixV2Error::NoLateSegments)
    } else {
        None
    }
}

/// Holds a description against a model and says where the stages lie.
pub fn load_prefix_v2_runtime(
    manifest_path: &str,
    manifest: &PrefixV2Manifest,
    runtime: &LoadedPrefixRuntime,
) -> (r: Result<String, PrefixV2Error>)
    ensures
        match manifest_fault(*manifest, *runtime) {
            Some(e) => r == Err::<String, PrefixV2Error>(e),
            None => r matches Ok(p) && p@ == joined(
                directory(manifest_path@),
                manifest.hot_stage_plan_file@,
            ),
        },
{
    if !same_text(manifest.format.as_str(), "L2PrefixV2") {
        return Err(PrefixV2Error::Format);
    }
    if !same_text(manifest.direct_kernel.as_str(), prefix_direct_kernel_str(runtime.direct_kernel)) {
        return Err(PrefixV2Error::DirectKernel);
    }
    if !same_text(
        manifest.certifier_kind.as_str(),
        prefix_certifier_kind_str(runtime.certifier_kind),
    ) {
        return Err(PrefixV2Error::CertifierKind);
    }
    if runtime.compiled_hot_pack.is_none() {
        return Err(PrefixV2Error::NoCompiledHotPack);
    }
    if runtime.certify_plan.is_none() {
        return Err(PrefixV2Error::NoCertifyPlan);
    }
    if !late_segments_there(runtime) {
        return Err(PrefixV2Error::NoLateSegments);
    }
    Ok(in_directory(manifest_path, manifest.hot_stage_plan_file.as_str()))
}

/// A model accepts the description that was made of it.
pub proof fn law_own_description_is_accepted(
    m: spec_fn(Seq<char>) -> bool,
    d: PrefixV2Manifest,
    resolved: ResolvedPrefixCalBundle,
    hot: Seq<char>,
    rt: LoadedPrefixRuntime,
    base: Seq<char>,
)
    requires
        preparable(true, rt),
        describes(m, d, resolved, hot, rt.direct_kernel, rt.certifier_kind, base),
    ensures
        manifest_fault(d, rt) is None,
{
}

} // verus!
