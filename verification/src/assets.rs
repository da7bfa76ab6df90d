//! Laws on what a model is made of: which files it is read from, and the tensors in its weights.

use crate::bundle::{bundle, PrefixCalBundleManifest, QsL2PrefixCalArgs};
use crate::le::{group_number_lens, holds_at, lemma_u32s_back, u32s_bytes};
use crate::kinds::PrefixDirectKernel;
use crate::paths::{relative_to, rooted};
use crate::tensors::{
    fingerprint, last_named, loaded, tensor_in_range, LoadFault, PartView, TensorSpec,
};
use crate::text::text_of;
use vstd::prelude::*;

verus! {

/// Whether a path is the one given where one is given, else the listed one: as it stands where it
/// starts at the root, where the list has no place of its own, or where nothing lies beside the
/// list, and beside the list otherwise.
pub open spec fn told_by(
    m: spec_fn(Seq<char>) -> bool,
    list: Option<Seq<char>>,
    given: Option<String>,
    on_list: Option<String>,
    path: Seq<char>,
) -> bool {
    match (given, on_list) {
        (Some(g), _) => path == g@,
        (None, Some(raw)) => match list {
            None => path == raw@,
            Some(at) => {
                let near = relative_to(at, raw@);
                if rooted(raw@) || !m(near) {
                    path == raw@
                } else {
                    path == near
                }
            },
        },
        (None, None) => true,
    }
}

/// Every file of a model is the one that its own argument gives, or else the one that the manifest
/// lists under its own name; the same goes for the variant, for which the exact one that the
/// manifest selects goes before the other.
pub proof fn law_files_go_by_their_own_names(
    m: spec_fn(Seq<char>) -> bool,
    args: QsL2PrefixCalArgs,
    x: PrefixCalBundleManifest,
)
    ensures
        ({
            let b = bundle(m, args, Some(x));
            let at = text_of(args.bundle_manifest);
            &&& told_by(m, at, args.qs_pack, x.pack_path, b.qs_pack)
            &&& told_by(m, at, args.calibration_json, x.calibration_json, b.calibration_json)
            &&& told_by(m, at, args.feat_bin, x.feat_bin, b.feat_bin)
            &&& told_by(m, at, args.route_meta, x.route_meta, b.route_meta)
            &&& told_by(m, at, args.soa, x.soa_bin, b.soa)
            &&& told_by(m, at, args.bounds, x.bounds_bin, b.bounds)
            &&& told_by(m, at, args.tree_order, x.tree_order_bin, b.tree_order)
            &&& told_by(m, at, args.model_json, x.model_json, b.model_json)
            &&& args.certifier_json is Some || x.certifier_json is Some ==> b.certifier_json is Some
                && told_by(m, at, args.certifier_json, x.certifier_json, b.certifier_json->Some_0)
            &&& args.certifier_json is None && x.certifier_json is None ==> b.certifier_json is None
            &&& x.atlas_bin is Some ==> b.atlas_bin is Some && told_by(
                m,
                at,
                None,
                x.atlas_bin,
                b.atlas_bin->Some_0,
            )
            &&& x.atlas_bin is None ==> b.atlas_bin is None
            &&& match (args.variant_key, x.selected_exact_variant, x.selected_variant) {
                (Some(v), _, _) => b.variant_key == v@,
                (None, Some(v), _) => b.variant_key == v@,
                (None, None, Some(v)) => b.variant_key == v@,
                (None, None, None) => true,
            }
            &&& x.telemetry_schema_version matches Some(v) ==> b.telemetry_schema_version == v
            &&& x.telemetry_schema_version is None ==> b.telemetry_schema_version == 2
        }),
{
}

/// A kernel that evaluates first trees node by node takes the pack of its own number of trees, and
/// as many trees as the manifest says or else as its name says.
pub proof fn law_kernels_take_their_own_pack(
    m: spec_fn(Seq<char>) -> bool,
    args: QsL2PrefixCalArgs,
    x: PrefixCalBundleManifest,
)
    ensures
        ({
            let b = bundle(m, args, Some(x));
            let at = text_of(args.bundle_manifest);
            let trees: int = match b.direct_kernel {
                PrefixDirectKernel::Qs => 0,
                PrefixDirectKernel::HotExact96 => 96,
                PrefixDirectKernel::HotExact128 => 128,
                PrefixDirectKernel::HotExact192 => 192,
                PrefixDirectKernel::HotExact256 => 256,
                PrefixDirectKernel::HotExact384 => 384,
            };
            let pack = if trees == 96 {
                x.hot_exact_prefix_96_pack
            } else if trees == 128 {
                x.hot_exact_prefix_128_pack
            } else if trees == 192 {
                x.hot_exact_prefix_192_pack
            } else if trees == 256 {
                x.hot_exact_prefix_256_pack
            } else if trees == 384 {
                x.hot_exact_prefix_384_pack
            } else {
                None
            };
            &&& pack is None ==> b.hot_exact_prefix_pack is None
            &&& pack is Some ==> b.hot_exact_prefix_pack is Some && told_by(
                m,
                at,
                None,
                pack,
                b.hot_exact_prefix_pack->Some_0,
            )
            &&& x.hot_exact_prefix_limit is Some ==> b.hot_exact_prefix_limit
                == x.hot_exact_prefix_limit
            &&& x.hot_exact_prefix_limit is None ==> match b.hot_exact_prefix_limit {
                Some(n) => n == trees && trees > 0,
                None => trees == 0,
            }
        }),
{
}

proof fn lemma_last_named(ts: Seq<TensorSpec>, name: Seq<char>, n: int, k: int)
    requires
        0 <= k < n <= ts.len(),
        ts[k].name@ == name,
        forall|j: int| k < j < n ==> (#[trigger] ts[j]).name@ != name,
    ensures
        last_named(ts, name, n) == Some(k),
    decreases n,
{
    if k < n - 1 {
        assert(ts[n - 1].name@ != name);
        lemma_last_named(ts, name, n - 1, k);
    }
}

/// A tensor is read back as it was written: the last one of its name, from where it stands in the
/// weights, as many values as were written there.
pub proof fn law_tensors_are_read_back(
    blob: Seq<u8>,
    ts: Seq<TensorSpec>,
    p: PartView,
    k: int,
    values: Seq<u32>,
)
    requires
        0 <= k < ts.len(),
        ts[k].name@ == p.name,
        forall|j: int| k < j < ts.len() ==> (#[trigger] ts[j]).name@ != p.name,
        ts[k].dtype@ == "f32"@,
        ts[k].nbytes == 4 * values.len(),
        ts[k].offset % 4 == 0,
        tensor_in_range(ts[k], blob.len()),
        holds_at(blob, ts[k].offset as int, u32s_bytes(values)),
        fingerprint(u32s_bytes(values)) == ts[k].sha256@,
    ensures
        loaded(blob, ts, p) == Ok::<Option<Seq<u32>>, LoadFault>(Some(values)),
{
    broadcast use group_number_lens;

    lemma_last_named(ts, p.name, ts.len() as int, k);
    lemma_u32s_back(blob, ts[k].offset as int, values);
    crate::le::lemma_holds_is_subrange(blob, ts[k].offset as int, u32s_bytes(values));
}

} // verus!
