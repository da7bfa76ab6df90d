//! Finding the files of a calibrated model.

use crate::certify::PrefixCertifierKind;
use crate::kinds::{
    certifier_named, kernel_named, parse_prefix_certifier_kind, parse_prefix_direct_kernel,
    PrefixDirectKernel,
};
use crate::paths::{
    asked, bundle_abspath, law_paths_below_a_root_are_rooted, resolve_bundle_path,
    resolve_bundle_path_optional, rooted, sought, tells, under, BundleError, BundleField,
};
use crate::text::{copy_text, same_text, text_of};
use vstd::prelude::*;

verus! {

/// What is given directly.
#[derive(Debug)]
pub struct QsL2PrefixCalArgs {
    pub bundle_manifest: Option<String>,
    pub qs_pack: Option<String>,
    pub calibration_json: Option<String>,
    pub variant_key: Option<String>,
    pub feat_bin: Option<String>,
    pub route_meta: Option<String>,
    pub soa: Option<String>,
    pub bounds: Option<String>,
    pub tree_order: Option<String>,
    pub model_json: Option<String>,
    pub direct_kernel: Option<String>,
    pub certifier_kind: Option<String>,
    pub certifier_json: Option<String>,
}

/// What a manifest lists.
#[derive(Debug)]
pub struct PrefixCalBundleManifest {
    pub format: String,
    pub pack_path: Option<String>,
    pub calibration_json: Option<String>,
    pub feat_bin: Option<String>,
    pub route_meta: Option<String>,
    pub soa_bin: Option<String>,
    pub bounds_bin: Option<String>,
    pub tree_order_bin: Option<String>,
    pub model_json: Option<String>,
    pub selected_variant: Option<String>,
    pub selected_exact_variant: Option<String>,
    pub direct_kernel: Option<String>,
    pub certifier_kind: Option<String>,
    pub certifier_json: Option<String>,
    pub atlas_bin: Option<String>,
    pub atlas_format: Option<String>,
    pub hot_exact_prefix_limit: Option<usize>,
    pub telemetry_schema_version: Option<u32>,
    pub hot_exact_prefix_96_pack: Option<String>,
    pub hot_exact_prefix_128_pack: Option<String>,
    pub hot_exact_prefix_192_pack: Option<String>,
    pub hot_exact_prefix_256_pack: Option<String>,
    pub hot_exact_prefix_384_pack: Option<String>,
}

/// What is found.
#[derive(Debug)]
pub struct ResolvedPrefixCalBundle {
    pub qs_pack: String,
    pub calibration_json: String,
    pub variant_key: String,
    pub feat_bin: String,
    pub route_meta: String,
    pub soa: String,
    pub bounds: String,
    pub tree_order: String,
    pub model_json: String,
    pub direct_kernel: PrefixDirectKernel,
    pub certifier_kind: PrefixCertifierKind,
    pub certifier_json: Option<String>,
    pub atlas_bin: Option<String>,
    pub atlas_format: Option<String>,
    pub hot_exact_prefix_limit: Option<usize>,
    pub telemetry_schema_version: u32,
    pub hot_exact_prefix_pack: Option<String>,
}

/// What is found, with text as sequences of characters.
#[verifier::ext_equal]
pub struct BundleView {
    pub qs_pack: Seq<char>,
    pub calibration_json: Seq<char>,
    pub variant_key: Seq<char>,
    pub feat_bin: Seq<char>,
    pub route_meta: Seq<char>,
    pub soa: Seq<char>,
    pub bounds: Seq<char>,
    pub tree_order: Seq<char>,
    pub model_json: Seq<char>,
    pub direct_kernel: PrefixDirectKernel,
    pub certifier_kind: PrefixCertifierKind,
    pub certifier_json: Option<Seq<char>>,
    pub atlas_bin: Option<Seq<char>>,
    pub atlas_format: Option<Seq<char>>,
    pub hot_exact_prefix_limit: Option<usize>,
    pub telemetry_schema_version: u32,
    pub hot_exact_prefix_pack: Option<Seq<char>>,
}

impl View for ResolvedPrefixCalBundle {
    type V = BundleView;

    open spec fn view(&self) -> BundleView {
        BundleView {
            qs_pack: self.qs_pack@,
            calibration_json: self.calibration_json@,
            variant_key: self.variant_key@,
            feat_bin: self.feat_bin@,
            route_meta: self.route_meta@,
            soa: self.soa@,
            bounds: self.bounds@,
            tree_order: self.tree_order@,
            model_json: self.model_json@,
            direct_kernel: self.direct_kernel,
            certifier_kind: self.certifier_kind,
            certifier_json: text_of(self.certifier_json),
            atlas_bin: text_of(self.atlas_bin),
            atlas_format: text_of(self.atlas_format),
            hot_exact_prefix_limit: self.hot_exact_prefix_limit,
            telemetry_schema_version: self.telemetry_schema_version,
            hot_exact_prefix_pack: text_of(self.hot_exact_prefix_pack),
        }
    }
}

/// What an optional manifest lists of one field.
pub open spec fn listed(
    manifest: Option<PrefixCalBundleManifest>,
    field: spec_fn(PrefixCalBundleManifest) -> Option<String>,
) -> Option<Seq<char>> {
    match manifest {
        Some(x) => text_of(field(x)),
        None => None,
    }
}

/// The first text of two.
pub open spec fn either(a: Option<Seq<char>>, b: Option<Seq<char>>) -> Option<Seq<char>> {
    match a {
        Some(x) => Some(x),
        None => b,
    }
}

/// The key of the variant: the one given, or the exact one selected, or the one selected.
pub open spec fn variant_of(
    args: QsL2PrefixCalArgs,
    manifest: Option<PrefixCalBundleManifest>,
) -> Option<Seq<char>> {
    either(
        text_of(args.variant_key),
        either(
            listed(manifest, |x: PrefixCalBundleManifest| x.selected_exact_variant),
            listed(manifest, |x: PrefixCalBundleManifest| x.selected_variant),
        ),
    )
}

/// The kernel named, if any.
pub open spec fn kernel_of(
    args: QsL2PrefixCalArgs,
    manifest: Option<PrefixCalBundleManifest>,
) -> Option<PrefixDirectKernel> {
    match either(
        text_of(args.direct_kernel),
        listed(manifest, |x: PrefixCalBundleManifest| x.direct_kernel),
    ) {
        Some(name) => kernel_named(name),
        None => Some(PrefixDirectKernel::Qs),
    }
}

/// The certifier named, if any.
pub open spec fn certifier_of(
    args: QsL2PrefixCalArgs,
    manifest: Option<PrefixCalBundleManifest>,
) -> Option<PrefixCertifierKind> {
    match either(
        text_of(args.certifier_kind),
        listed(manifest, |x: PrefixCalBundleManifest| x.certifier_kind),
    ) {
        Some(name) => certifier_named(name),
        None => Some(PrefixCertifierKind::TableV1),
    }
}

/// How many trees a kernel evaluates node by node.
pub open spec fn kernel_limit(k: PrefixDirectKernel) -> Option<usize> {
    match k {
        PrefixDirectKernel::Qs => None,
        PrefixDirectKernel::HotExact96 => Some(96),
        PrefixDirectKernel::HotExact128 => Some(128),
        PrefixDirectKernel::HotExact192 => Some(192),
        PrefixDirectKernel::HotExact256 => Some(256),
        PrefixDirectKernel::HotExact384 => Some(384),
    }
}

/// Computes [`kernel_limit`].
pub fn direct_kernel_limit(k: PrefixDirectKernel) -> (r: Option<usize>)
    ensures
        r == kernel_limit(k),
{
    match k {
        PrefixDirectKernel::Qs => None,
        PrefixDirectKernel::HotExact96 => Some(96),
        PrefixDirectKernel::HotExact128 => Some(128),
        PrefixDirectKernel::HotExact192 => Some(192),
        PrefixDirectKernel::HotExact256 => Some(256),
        PrefixDirectKernel::HotExact384 => Some(384),
    }
}

/// What a manifest lists as the pack of a kernel.
pub open spec fn kernel_pack(
    k: PrefixDirectKernel,
    manifest: Option<PrefixCalBundleManifest>,
) -> Option<Seq<char>> {
    match manifest {
        None => None,
        Some(x) => match k {
            PrefixDirectKernel::Qs => None,
            PrefixDirectKernel::HotExact96 => text_of(x.hot_exact_prefix_96_pack),
            PrefixDirectKernel::HotExact128 => text_of(x.hot_exact_prefix_128_pack),
            PrefixDirectKernel::HotExact192 => text_of(x.hot_exact_prefix_192_pack),
            PrefixDirectKernel::HotExact256 => text_of(x.hot_exact_prefix_256_pack),
            PrefixDirectKernel::HotExact384 => text_of(x.hot_exact_prefix_384_pack),
        },
    }
}

/// Where one of the files is looked for: what is given, and what is listed.
pub open spec fn field_of(
    args: QsL2PrefixCalArgs,
    manifest: Option<PrefixCalBundleManifest>,
    field: BundleField,
) -> (Option<Seq<char>>, Option<Seq<char>>) {
    match field {
        BundleField::PackPath => (
            text_of(args.qs_pack),
            listed(manifest, |x: PrefixCalBundleManifest| x.pack_path),
        ),
        BundleField::CalibrationJson => (
            text_of(args.calibration_json),
            listed(manifest, |x: PrefixCalBundleManifest| x.calibration_json),
        ),
        BundleField::FeatBin => (
            text_of(args.feat_bin),
            listed(manifest, |x: PrefixCalBundleManifest| x.feat_bin),
        ),
        BundleField::RouteMeta => (
            text_of(args.route_meta),
            listed(manifest, |x: PrefixCalBundleManifest| x.route_meta),
        ),
        BundleField::SoaBin => (
            text_of(args.soa),
            listed(manifest, |x: PrefixCalBundleManifest| x.soa_bin),
        ),
        BundleField::BoundsBin => (
            text_of(args.bounds),
            listed(manifest, |x: PrefixCalBundleManifest| x.bounds_bin),
        ),
        BundleField::TreeOrderBin => (
            text_of(args.tree_order),
            listed(manifest, |x: PrefixCalBundleManifest| x.tree_order_bin),
        ),
        BundleField::ModelJson => (
            text_of(args.model_json),
            listed(manifest, |x: PrefixCalBundleManifest| x.model_json),
        ),
    }
}

/// Where one of the files is.
pub open spec fn found(
    m: spec_fn(Seq<char>) -> bool,
    args: QsL2PrefixCalArgs,
    manifest: Option<PrefixCalBundleManifest>,
    field: BundleField,
) -> Option<Seq<char>> {
    let (given, on_list) = field_of(args, manifest, field);
    sought(m, given, on_list, text_of(args.bundle_manifest))
}

/// Whether one of the files is named at all.
pub open spec fn named(
    args: QsL2PrefixCalArgs,
    manifest: Option<PrefixCalBundleManifest>,
    field: BundleField,
) -> bool {
    let (given, on_list) = field_of(args, manifest, field);
    given is Some || on_list is Some
}

/// The first file that is not named.
pub open spec fn first_unnamed(
    args: QsL2PrefixCalArgs,
    manifest: Option<PrefixCalBundleManifest>,
) -> Option<BundleField> {
    if !named(args, manifest, BundleField::PackPath) {
        Some(BundleField::PackPath)
    } else if !named(args, manifest, BundleField::CalibrationJson) {
        Some(BundleField::CalibrationJson)
    } else if !named(args, manifest, BundleField::FeatBin) {
        Some(BundleField::FeatBin)
    } else if !named(args, manifest, BundleField::RouteMeta) {
        Some(BundleField::RouteMeta)
    } else if !named(args, manifest, BundleField::SoaBin) {
        Some(BundleField::SoaBin)
    } else if !named(args, manifest, BundleField::BoundsBin) {
        Some(BundleField::BoundsBin)
    } else if !named(args, manifest, BundleField::TreeOrderBin) {
        Some(BundleField::TreeOrderBin)
    } else if !named(args, manifest, BundleField::ModelJson) {
        Some(BundleField::ModelJson)
    } else {
        None
    }
}

/// What keeps the files of a model from being found, in the order in which it is noticed.
pub open spec fn bundle_fault(
    args: QsL2PrefixCalArgs,
    manifest: Option<PrefixCalBundleManifest>,
) -> Option<BundleError> {
    if manifest is Some && manifest->0.format@ != "L2PrefixCalBundleV1"@ {
        Some(BundleError::Format)
    } else if variant_of(args, manifest) is None {
        Some(BundleError::NoVariant)
    } else if kernel_of(args, manifest) is None {
        Some(BundleError::DirectKernel)
    } else if certifier_of(args, manifest) is None {
        Some(BundleError::CertifierKind)
    } else {
        match first_unnamed(args, manifest) {
            Some(field) => Some(BundleError::Missing { field }),
            None => None,
        }
    }
}

/// The files of a model for which nothing is at fault.
pub open spec fn bundle(
    m: spec_fn(Seq<char>) -> bool,
    args: QsL2PrefixCalArgs,
    manifest: Option<PrefixCalBundleManifest>,
) -> BundleView {
    let kernel = kernel_of(args, manifest)->0;
    let base = text_of(args.bundle_manifest);
    BundleView {
        qs_pack: found(m, args, manifest, BundleField::PackPath)->0,
        calibration_json: found(m, args, manifest, BundleField::CalibrationJson)->0,
        variant_key: variant_of(args, manifest)->0,
        feat_bin: found(m, args, manifest, BundleField::FeatBin)->0,
        route_meta: found(m, args, manifest, BundleField::RouteMeta)->0,
        soa: found(m, args, manifest, BundleField::SoaBin)->0,
        bounds: found(m, args, manifest, BundleField::BoundsBin)->0,
        tree_order: found(m, args, manifest, BundleField::TreeOrderBin)->0,
        model_json: found(m, args, manifest, BundleField::ModelJson)->0,
        direct_kernel: kernel,
        certifier_kind: certifier_of(args, manifest)->0,
        certifier_json: sought(
            m,
            text_of(args.certifier_json),
            listed(manifest, |x: PrefixCalBundleManifest| x.certifier_json),
            base,
        ),
        atlas_bin: sought(
            m,
            None,
            listed(manifest, |x: PrefixCalBundleManifest| x.atlas_bin),
            base,
        ),
        atlas_format: listed(manifest, |x: PrefixCalBundleManifest| x.atlas_format),
        hot_exact_prefix_limit: if manifest is Some && manifest->0.hot_exact_prefix_limit is Some {
            manifest->0.hot_exact_prefix_limit
        } else {
            kernel_limit(kernel)
        },
        telemetry_schema_version: if manifest is Some
            && manifest->0.telemetry_schema_version is Some {
            manifest->0.telemetry_schema_version->0
        } else {
            2
        },
        hot_exact_prefix_pack: sought(m, None, kernel_pack(kernel, manifest), base),
    }
}

/// Finds the files of a model. A manifest, where there is one, lies at `args.bundle_manifest`.
pub fn resolve_prefix_cal_bundle<P: Fn(&str) -> bool>(
    present: &P,
    args: &QsL2PrefixCalArgs,
    manifest: &Option<PrefixCalBundleManifest>,
) -> (r: Result<ResolvedPrefixCalBundle, BundleError>)
    requires
        asked(*present),
    ensures
        match r {
            Ok(b) => bundle_fault(*args, *manifest) is None && forall|
                m: spec_fn(Seq<char>) -> bool,
            | #[trigger]
                tells(*present, m) ==> b@ == bundle(m, *args, *manifest),
            Err(e) => bundle_fault(*args, *manifest) == Some(e),
        },
{
    let nothing: Option<String> = None;
    if let Some(x) = manifest {
        if !same_text(x.format.as_str(), "L2PrefixCalBundleV1") {
            return Err(BundleError::Format);
        }
    }
    let base: &Option<String> = &args.bundle_manifest;
    let variant_key: String = match &args.variant_key {
        Some(k) => k.as_str().to_owned(),
        None => match manifest {
            None => {
                return Err(BundleError::NoVariant);
            },
            Some(x) => match &x.selected_exact_variant {
                Some(k) => k.as_str().to_owned(),
                None => match &x.selected_variant {
                    Some(k) => k.as_str().to_owned(),
                    None => {
                        return Err(BundleError::NoVariant);
                    },
                },
            },
        },
    };
    let kernel_text: &Option<String> = match &args.direct_kernel {
        Some(_) => &args.direct_kernel,
        None => match manifest {
            Some(x) => &x.direct_kernel,
            None => &nothing,
        },
    };
    let direct_kernel: PrefixDirectKernel = match kernel_text {
        None => PrefixDirectKernel::Qs,
        Some(raw) => match parse_prefix_direct_kernel(raw.as_str()) {
            Some(k) => k,
            None => {
                return Err(BundleError::DirectKernel);
            },
        },
    };
    let certifier_text: &Option<String> = match &args.certifier_kind {
        Some(_) => &args.certifier_kind,
        None => match manifest {
            Some(x) => &x.certifier_kind,
            None => &nothing,
        },
    };
    let certifier_kind: PrefixCertifierKind = match certifier_text {
        None => PrefixCertifierKind::TableV1,
        Some(raw) => match parse_prefix_certifier_kind(raw.as_str()) {
            Some(k) => k,
            None => {
                return Err(BundleError::CertifierKind);
            },
        },
    };
    let qs_pack_listed: &Option<String> = match manifest {
        Some(x) => &x.pack_path,
        None => &nothing,
    };
    let qs_pack: String = match resolve_bundle_path(
        present,
        &args.qs_pack,
        qs_pack_listed,
        base,
        BundleField::PackPath,
    ) {
        Ok(p) => p,
        Err(e) => {
            return Err(e);
        },
    };
    let calibration_json_listed: &Option<String> = match manifest {
        Some(x) => &x.calibration_json,
        None => &nothing,
    };
    let calibration_json: String = match resolve_bundle_path(
        present,
        &args.calibration_json,
        calibration_json_listed,
        base,
        BundleField::CalibrationJson,
    ) {
        Ok(p) => p,
        Err(e) => {
            return Err(e);
        },
    };
    let feat_bin_listed: &Option<String> = match manifest {
        Some(x) => &x.feat_bin,
        None => &nothing,
    };
    let feat_bin: String = match resolve_bundle_path(
        present,
        &args.feat_bin,
        feat_bin_listed,
        base,
        BundleField::FeatBin,
    ) {
        Ok(p) => p,
        Err(e) => {
            return Err(e);
        },
    };
    let route_meta_listed: &Option<String> = match manifest {
        Some(x) => &x.route_meta,
        None => &nothing,
    };
    let route_meta: String = match resolve_bundle_path(
        present,
        &args.route_meta,
        route_meta_listed,
        base,
        BundleField::RouteMeta,
    ) {
        Ok(p) => p,
        Err(e) => {
            return Err(e);
        },
    };
    let soa_listed: &Option<String> = match manifest {
        Some(x) => &x.soa_bin,
        None => &nothing,
    };
    let soa: String = match resolve_bundle_path(
        present,
        &args.soa,
        soa_listed,
        base,
        BundleField::SoaBin,
    ) {
        Ok(p) => p,
        Err(e) => {
            return Err(e);
        },
    };
    let bounds_listed: &Option<String> = match manifest {
        Some(x) => &x.bounds_bin,
        None => &nothing,
    };
    let bounds: String = match resolve_bundle_path(
        present,
        &args.bounds,
        bounds_listed,
        base,
        BundleField::BoundsBin,
    ) {
        Ok(p) => p,
        Err(e) => {
            return Err(e);
        },
    };
    let tree_order_listed: &Option<String> = match manifest {
        Some(x) => &x.tree_order_bin,
        None => &nothing,
    };
    let tree_order: String = match resolve_bundle_path(
        present,
        &args.tree_order,
        tree_order_listed,
        base,
        BundleField::TreeOrderBin,
    ) {
        Ok(p) => p,
        Err(e) => {
            return Err(e);
        },
    };
    let model_json_listed: &Option<String> = match manifest {
        Some(x) => &x.model_json,
        None => &nothing,
    };
    let model_json: String = match resolve_bundle_path(
        present,
        &args.model_json,
        model_json_listed,
        base,
        BundleField::ModelJson,
    ) {
        Ok(p) => p,
        Err(e) => {
            return Err(e);
        },
    };
    let pack_listed: &Option<String> = match manifest {
        None => &nothing,
        Some(x) => match direct_kernel {
            PrefixDirectKernel::Qs => &nothing,
            PrefixDirectKernel::HotExact96 => &x.hot_exact_prefix_96_pack,
            PrefixDirectKernel::HotExact128 => &x.hot_exact_prefix_128_pack,
            PrefixDirectKernel::HotExact192 => &x.hot_exact_prefix_192_pack,
            PrefixDirectKernel::HotExact256 => &x.hot_exact_prefix_256_pack,
            PrefixDirectKernel::HotExact384 => &x.hot_exact_prefix_384_pack,
        },
    };
    let hot_exact_prefix_pack: Option<String> = resolve_bundle_path_optional(
        present,
        &nothing,
        pack_listed,
        base,
    );
    let certifier_listed: &Option<String> = match manifest {
        Some(x) => &x.certifier_json,
        None => &nothing,
    };
    let certifier_json: Option<String> = resolve_bundle_path_optional(
        present,
        &args.certifier_json,
        certifier_listed,
        base,
    );
    let atlas_listed: &Option<String> = match manifest {
        Some(x) => &x.atlas_bin,
        None => &nothing,
    };
    let atlas_bin: Option<String> = resolve_bundle_path_optional(
        present,
        &nothing,
        atlas_listed,
        base,
    );
    let atlas_format: Option<String> = match manifest {
        Some(x) => copy_text(&x.atlas_format),
        None => None,
    };
    let limit_listed: Option<usize> = match manifest {
        Some(x) => x.hot_exact_prefix_limit,
        None => None,
    };
    let hot_exact_prefix_limit: Option<usize> = match limit_listed {
        Some(n) => Some(n),
        None => direct_kernel_limit(direct_kernel),
    };
    let version_listed: Option<u32> = match manifest {
        Some(x) => x.telemetry_schema_version,
        None => None,
    };
    let telemetry_schema_version: u32 = match version_listed {
        Some(n) => n,
        None => 2,
    };
    Ok(
        ResolvedPrefixCalBundle {
            qs_pack,
            calibration_json,
            variant_key,
            feat_bin,
            route_meta,
            soa,
            bounds,
            tree_order,
            model_json,
            direct_kernel,
            certifier_kind,
            certifier_json,
            atlas_bin,
            atlas_format,
            hot_exact_prefix_limit,
            telemetry_schema_version,
            hot_exact_prefix_pack,
        },
    )
}

/// The files of a model with all paths made absolute below `root`.
pub open spec fn placed(root: Seq<char>, b: BundleView) -> BundleView {
    BundleView {
        qs_pack: under(root, b.qs_pack),
        calibration_json: under(root, b.calibration_json),
        feat_bin: under(root, b.feat_bin),
        route_meta: under(root, b.route_meta),
        soa: under(root, b.soa),
        bounds: under(root, b.bounds),
        tree_order: under(root, b.tree_order),
        model_json: under(root, b.model_json),
        certifier_json: under_optional(root, b.certifier_json),
        atlas_bin: under_optional(root, b.atlas_bin),
        hot_exact_prefix_pack: under_optional(root, b.hot_exact_prefix_pack),
        ..b
    }
}

/// An optional path made absolute below `root`.
pub open spec fn under_optional(root: Seq<char>, path: Option<Seq<char>>) -> Option<Seq<char>> {
    match path {
        Some(p) => Some(under(root, p)),
        None => None,
    }
}

fn abspath_optional(root: &str, path: &Option<String>) -> (r: Option<String>)
    ensures
        text_of(r) == under_optional(root@, text_of(*path)),
{
    match path {
        Some(p) => Some(bundle_abspath(root, p.as_str())),
        None => None,
    }
}

/// Computes [`placed`].
pub fn absolutize_resolved_bundle(root: &str, resolved: ResolvedPrefixCalBundle) -> (r:
    ResolvedPrefixCalBundle)
    ensures
        r@ == placed(root@, resolved@),
{
    ResolvedPrefixCalBundle {
        qs_pack: bundle_abspath(root, resolved.qs_pack.as_str()),
        calibration_json: bundle_abspath(root, resolved.calibration_json.as_str()),
        feat_bin: bundle_abspath(root, resolved.feat_bin.as_str()),
        route_meta: bundle_abspath(root, resolved.route_meta.as_str()),
        soa: bundle_abspath(root, resolved.soa.as_str()),
        bounds: bundle_abspath(root, resolved.bounds.as_str()),
        tree_order: bundle_abspath(root, resolved.tree_order.as_str()),
        model_json: bundle_abspath(root, resolved.model_json.as_str()),
        certifier_json: abspath_optional(root, &resolved.certifier_json),
        atlas_bin: abspath_optional(root, &resolved.atlas_bin),
        hot_exact_prefix_pack: abspath_optional(root, &resolved.hot_exact_prefix_pack),
        variant_key: resolved.variant_key,
        direct_kernel: resolved.direct_kernel,
        certifier_kind: resolved.certifier_kind,
        atlas_format: resolved.atlas_format,
        hot_exact_prefix_limit: resolved.hot_exact_prefix_limit,
        telemetry_schema_version: resolved.telemetry_schema_version,
    }
}

/// Whether every path of a model starts at the root.
pub open spec fn all_rooted(b: BundleView) -> bool {
    &&& rooted(b.qs_pack)
    &&& rooted(b.calibration_json)
    &&& rooted(b.feat_bin)
    &&& rooted(b.route_meta)
    &&& rooted(b.soa)
    &&& rooted(b.bounds)
    &&& rooted(b.tree_order)
    &&& rooted(b.model_json)
    &&& b.certifier_json matches Some(p) ==> rooted(p)
    &&& b.atlas_bin matches Some(p) ==> rooted(p)
    &&& b.hot_exact_prefix_pack matches Some(p) ==> rooted(p)
}

/// Where every path starts at the root, making them absolute changes nothing.
proof fn lemma_rooted_paths_stay(root: Seq<char>, b: BundleView)
    requires
        all_rooted(b),
    ensures
        placed(root, b) == b,
{
    let r = placed(root, b);
    assert(r.certifier_json == b.certifier_json);
    assert(r.atlas_bin == b.atlas_bin);
    assert(r.hot_exact_prefix_pack == b.hot_exact_prefix_pack);
}

/// Below a root that starts at the root, every path of a model comes to start there.
proof fn lemma_placed_paths_are_rooted(root: Seq<char>, b: BundleView)
    requires
        rooted(root),
    ensures
        all_rooted(placed(root, b)),
{
    assert forall|p: Seq<char>| rooted(#[trigger] under(root, p)) by {
        law_paths_below_a_root_are_rooted(root, p);
    }
}

/// Below a root that starts at the root, all paths of a model are made absolute, and making them
/// absolute again changes nothing, below whichever root.
pub proof fn law_placed_paths_stay(root: Seq<char>, other: Seq<char>, b: BundleView)
    requires
        rooted(root),
    ensures
        all_rooted(placed(root, b)),
        placed(other, placed(root, b)) == placed(root, b),
{
    lemma_placed_paths_are_rooted(root, b);
    lemma_rooted_paths_stay(other, placed(root, b));
}

} // verus!
