//! Which files a model of several bundles is made of: an anchor with its rescues, routes by bin of
//! the threshold, or packets.

use crate::bundle::{variant_of, PrefixCalBundleManifest, QsL2PrefixCalArgs};
use crate::paths::{
    asked, compatible, relative_to, resolve_relative_compat, resolve_relative_to, tells,
};
use crate::prefix_runtime::LoadedPrefixRuntime;
use crate::rescue::{LoadedAnchorRescueRuntime, LoadedRescueRouter};
use crate::sorting::{place_for, put_in, sorted};
use crate::text::{decimal, same_text, text_of, write_decimal};
use vstd::prelude::*;

verus! {

/// What a manifest lists beyond the files of one bundle.
#[derive(Debug)]
pub struct V4Manifest {
    pub packet_manifest_json: Option<String>,
    pub anchor_manifest_json: Option<String>,
    pub rescue_manifest_json: Option<String>,
    pub rescue_router_json: Option<String>,
    pub order_router_json: Option<String>,
}

/// A file that a manifest has to list.
#[derive(Clone, Copy, Debug, PartialEq, Eq, Structural)]
pub enum V4Field {
    PacketManifest,
    AnchorManifest,
    RescueManifest,
    RescueRouter,
    OrderRouter,
}

/// Why a model of several bundles cannot be put together.
#[derive(Clone, Copy, Debug, PartialEq, Eq, Structural)]
pub enum V4Error {
    NoVariant,
    Missing { field: V4Field },
    Format,
}

/// What a manifest lists of a field.
pub open spec fn listed_as(v4: V4Manifest, field: V4Field) -> Option<Seq<char>> {
    match field {
        V4Field::PacketManifest => text_of(v4.packet_manifest_json),
        V4Field::AnchorManifest => text_of(v4.anchor_manifest_json),
        V4Field::RescueManifest => text_of(v4.rescue_manifest_json),
        V4Field::RescueRouter => text_of(v4.rescue_router_json),
        V4Field::OrderRouter => text_of(v4.order_router_json),
    }
}

/// The name of a field.
pub open spec fn v4_field_words(field: V4Field) -> Seq<char> {
    match field {
        V4Field::PacketManifest => "packet_manifest_json"@,
        V4Field::AnchorManifest => "anchor_manifest_json"@,
        V4Field::RescueManifest => "rescue_manifest_json"@,
        V4Field::RescueRouter => "rescue_router_json"@,
        V4Field::OrderRouter => "order_router_json"@,
    }
}

/// Computes [`v4_field_words`].
pub fn v4_field_name(field: V4Field) -> (r: &'static str)
    ensures
        r@ == v4_field_words(field),
{
    match field {
        V4Field::PacketManifest => "packet_manifest_json",
        V4Field::AnchorManifest => "anchor_manifest_json",
        V4Field::RescueManifest => "rescue_manifest_json",
        V4Field::RescueRouter => "rescue_router_json",
        V4Field::OrderRouter => "order_router_json",
    }
}

/// Where the file of a field lies, seen from the manifest.
pub fn find_listed<P: Fn(&str) -> bool>(
    present: &P,
    manifest_path: &str,
    v4: &V4Manifest,
    field: V4Field,
) -> (r: Result<String, V4Error>)
    requires
        asked(*present),
    ensures
        match listed_as(*v4, field) {
            None => r == Err::<String, V4Error>(V4Error::Missing { field }),
            Some(raw) => r is Ok && forall|m: spec_fn(Seq<char>) -> bool| #[trigger]
                tells(*present, m) ==> r->Ok_0@ == compatible(m, manifest_path@, raw),
        },
{
    let raw: &Option<String> = match field {
        V4Field::PacketManifest => &v4.packet_manifest_json,
        V4Field::AnchorManifest => &v4.anchor_manifest_json,
        V4Field::RescueManifest => &v4.rescue_manifest_json,
        V4Field::RescueRouter => &v4.rescue_router_json,
        V4Field::OrderRouter => &v4.order_router_json,
    };
    match raw {
        None => Err(V4Error::Missing { field }),
        Some(s) => Ok(resolve_relative_compat(present, manifest_path, s.as_str())),
    }
}

/// The variant that is given or listed.
pub fn select_variant(args: &QsL2PrefixCalArgs, parsed: &PrefixCalBundleManifest) -> (r: Option<
    String,
>)
    ensures
        text_of(r) == variant_of(*args, Some(*parsed)),
{
    if let Some(k) = &args.variant_key {
        return Some(k.as_str().to_owned());
    }
    if let Some(k) = &parsed.selected_exact_variant {
        return Some(k.as_str().to_owned());
    }
    match &parsed.selected_variant {
        Some(k) => Some(k.as_str().to_owned()),
        None => None,
    }
}

/// Whether a bundle is looked for by its manifest and a variant alone.
pub open spec fn child_of(a: QsL2PrefixCalArgs, manifest: Seq<char>, variant: Seq<char>) -> bool {
    &&& text_of(a.bundle_manifest) == Some(manifest)
    &&& text_of(a.variant_key) == Some(variant)
    &&& a.qs_pack is None
    &&& a.calibration_json is None
    &&& a.feat_bin is None
    &&& a.route_meta is None
    &&& a.soa is None
    &&& a.bounds is None
    &&& a.tree_order is None
    &&& a.model_json is None
    &&& a.direct_kernel is None
    &&& a.certifier_kind is None
    &&& a.certifier_json is None
}

/// What a bundle is looked for by: its manifest and a variant.
pub fn child_args(manifest: String, variant: &str) -> (r: QsL2PrefixCalArgs)
    ensures
        child_of(r, manifest@, variant@),
{
    QsL2PrefixCalArgs {
        bundle_manifest: Some(manifest),
        qs_pack: None,
        calibration_json: None,
        variant_key: Some(variant.to_owned()),
        feat_bin: None,
        route_meta: None,
        soa: None,
        bounds: None,
        tree_order: None,
        model_json: None,
        direct_kernel: None,
        certifier_kind: None,
        certifier_json: None,
    }
}

/// Where an anchor and what belongs to its rescues lie.
#[derive(Debug)]
pub struct AnchorPlan {
    pub variant: String,
    pub anchor: QsL2PrefixCalArgs,
    pub rescue_manifest: String,
    pub rescue_router: String,
}

/// Whether a plan is the one that arguments and manifest give.
pub open spec fn anchor_planned(
    m: spec_fn(Seq<char>) -> bool,
    p: AnchorPlan,
    variant: Seq<char>,
    path: Seq<char>,
    v4: V4Manifest,
) -> bool {
    &&& p.variant@ == variant
    &&& child_of(
        p.anchor,
        compatible(m, path, listed_as(v4, V4Field::AnchorManifest)->Some_0),
        variant,
    )
    &&& p.rescue_manifest@ == compatible(m, path, listed_as(v4, V4Field::RescueManifest)->Some_0)
    &&& p.rescue_router@ == compatible(m, path, listed_as(v4, V4Field::RescueRouter)->Some_0)
}

/// What keeps an anchor from being found.
pub open spec fn anchor_fault(
    args: QsL2PrefixCalArgs,
    parsed: PrefixCalBundleManifest,
    v4: V4Manifest,
) -> Option<V4Error> {
    if variant_of(args, Some(parsed)) is None {
        Some(V4Error::NoVariant)
    } else if v4.anchor_manifest_json is None {
        Some(V4Error::Missing { field: V4Field::AnchorManifest })
    } else if v4.rescue_manifest_json is None {
        Some(V4Error::Missing { field: V4Field::RescueManifest })
    } else if v4.rescue_router_json is None {
        Some(V4Error::Missing { field: V4Field::RescueRouter })
    } else {
        None
    }
}

/// Finds an anchor and what belongs to its rescues.
pub fn plan_anchor_rescue<P: Fn(&str) -> bool>(
    present: &P,
    args: &QsL2PrefixCalArgs,
    manifest_path: &str,
    parsed: &PrefixCalBundleManifest,
    v4: &V4Manifest,
) -> (r: Result<AnchorPlan, V4Error>)
    requires
        asked(*present),
    ensures
        match anchor_fault(*args, *parsed, *v4) {
            Some(e) => r == Err::<AnchorPlan, V4Error>(e),
            None => r is Ok && forall|m: spec_fn(Seq<char>) -> bool| #[trigger]
                tells(*present, m) ==> anchor_planned(
                    m,
                    r->Ok_0,
                    variant_of(*args, Some(*parsed))->Some_0,
                    manifest_path@,
                    *v4,
                ),
        },
{
    let variant: String = match select_variant(args, parsed) {
        None => {
            return Err(V4Error::NoVariant);
        },
        Some(v) => v,
    };
    let anchor_manifest: String = match find_listed(
        present,
        manifest_path,
        v4,
        V4Field::AnchorManifest,
    ) {
        Ok(p) => p,
        Err(e) => {
            return Err(e);
        },
    };
    let rescue_manifest: String = match find_listed(
        present,
        manifest_path,
        v4,
        V4Field::RescueManifest,
    ) {
        Ok(p) => p,
        Err(e) => {
            return Err(e);
        },
    };
    let rescue_router: String = match find_listed(
        present,
        manifest_path,
        v4,
        V4Field::RescueRouter,
    ) {
        Ok(p) => p,
        Err(e) => {
            return Err(e);
        },
    };
    let anchor: QsL2PrefixCalArgs = child_args(anchor_manifest, variant.as_str());
    Ok(AnchorPlan { variant, anchor, rescue_manifest, rescue_router })
}

/// What is listed of the rescues of an anchor.
#[derive(Debug)]
pub struct PrefixAnchorRescueManifestFile {
    pub format: String,
    pub reject_bundle_manifest: String,
    pub refer_bundle_manifest: String,
    pub anchor_limit: usize,
    pub rescue_limit: usize,
}

/// Finds the two rescues of an anchor.
pub fn plan_rescues<P: Fn(&str) -> bool>(
    present: &P,
    rescue_manifest_path: &str,
    manifest: &PrefixAnchorRescueManifestFile,
    variant: &str,
) -> (r: Result<(QsL2PrefixCalArgs, QsL2PrefixCalArgs), V4Error>)
    requires
        asked(*present),
    ensures
        if manifest.format@ != "L2AnchorRescueManifestV1"@ {
            r == Err::<(QsL2PrefixCalArgs, QsL2PrefixCalArgs), V4Error>(V4Error::Format)
        } else {
            r is Ok && forall|m: spec_fn(Seq<char>) -> bool| #[trigger]
                tells(*present, m) ==> child_of(
                    r->Ok_0.0,
                    compatible(m, rescue_manifest_path@, manifest.reject_bundle_manifest@),
                    variant@,
                ) && child_of(
                    r->Ok_0.1,
                    compatible(m, rescue_manifest_path@, manifest.refer_bundle_manifest@),
                    variant@,
                )
        },
{
    if !same_text(manifest.format.as_str(), "L2AnchorRescueManifestV1") {
        return Err(V4Error::Format);
    }
    let reject: String = resolve_relative_compat(
        present,
        rescue_manifest_path,
        manifest.reject_bundle_manifest.as_str(),
    );
    let refer: String = resolve_relative_compat(
        present,
        rescue_manifest_path,
        manifest.refer_bundle_manifest.as_str(),
    );
    Ok((child_args(reject, variant), child_args(refer, variant)))
}

/// Puts an anchor, its rescues and their router together.
pub fn load_v4_anchor_rescue(
    anchor: LoadedPrefixRuntime,
    reject_rescue: LoadedPrefixRuntime,
    refer_rescue: LoadedPrefixRuntime,
    router: LoadedRescueRouter,
    manifest: &PrefixAnchorRescueManifestFile,
) -> (r: LoadedAnchorRescueRuntime)
    ensures
        r == (LoadedAnchorRescueRuntime {
            anchor,
            reject_rescue,
            refer_rescue,
            router,
            anchor_limit: manifest.anchor_limit,
            rescue_limit: manifest.rescue_limit,
        }),
{
    LoadedAnchorRescueRuntime {
        anchor,
        reject_rescue,
        refer_rescue,
        router,
        anchor_limit: manifest.anchor_limit,
        rescue_limit: manifest.rescue_limit,
    }
}

/// A bundle for one bin of the threshold.
#[derive(Debug)]
pub struct PrefixOrderRouterEntry {
    pub tau_bin: usize,
    pub label: Option<String>,
    pub bundle_manifest: String,
}

/// Bundles by bin of the threshold.
#[derive(Debug)]
pub struct PrefixOrderRouterFile {
    pub format: String,
    pub tau_edges: Vec<u32>,
    pub bundles: Vec<PrefixOrderRouterEntry>,
}

/// A route: the bundle that rows of one bin of the threshold take.
#[derive(Debug)]
pub struct RoutePlan {
    pub tau_bin: usize,
    pub label: String,
    pub bundle: QsL2PrefixCalArgs,
}

/// Routes by bin of the threshold.
#[derive(Debug)]
pub struct OrderPlan {
    pub routes: Vec<RoutePlan>,
    pub variant: String,
    pub telemetry_schema_version: u32,
}

/// What a route holds.
#[verifier::ext_equal]
pub struct RouteView {
    pub tau_bin: usize,
    pub label: Seq<char>,
    pub manifest: Option<Seq<char>>,
}

/// What a route holds.
pub open spec fn route_view(r: RoutePlan) -> RouteView {
    RouteView {
        tau_bin: r.tau_bin,
        label: r.label@,
        manifest: text_of(r.bundle.bundle_manifest),
    }
}

/// What routes hold.
pub open spec fn route_views(s: Seq<RoutePlan>) -> Seq<RouteView> {
    Seq::new(s.len(), |i: int| route_view(s[i]))
}

/// The bin of a route.
pub open spec fn route_bin() -> spec_fn(RouteView) -> int {
    |r: RouteView| r.tau_bin as int
}

/// The route that an entry gives. Without a label it is named after its bin.
pub open spec fn route_of(path: Seq<char>, e: PrefixOrderRouterEntry) -> RouteView {
    RouteView {
        tau_bin: e.tau_bin,
        label: match e.label {
            Some(l) => l@,
            None => "tau_bin_"@ + decimal(e.tau_bin as nat),
        },
        manifest: Some(relative_to(path, e.bundle_manifest@)),
    }
}

/// The routes of the first `n` entries.
pub open spec fn routes_of(path: Seq<char>, s: Seq<PrefixOrderRouterEntry>, n: int) -> Seq<RouteView> {
    Seq::new(n as nat, |i: int| route_of(path, s[i]))
}

fn put_route(list: &mut Vec<RoutePlan>, p: RoutePlan, Ghost(variant): Ghost<Seq<char>>)
    requires
        forall|i: int|
            0 <= i < old(list)@.len() ==> text_of((#[trigger] old(list)@[i]).bundle.variant_key)
                == Some(variant),
        text_of(p.bundle.variant_key) == Some(variant),
    ensures
        route_views(final(list)@) == put_in(route_views(old(list)@), route_bin(), route_view(p)),
        forall|i: int|
            0 <= i < final(list)@.len() ==> text_of(
                (#[trigger] final(list)@[i]).bundle.variant_key,
            ) == Some(variant),
{
    let ghost before = list@;
    let ghost s = route_views(list@);
    let mut k: usize = list.len();
    while k > 0 && list[k - 1].tau_bin > p.tau_bin
        invariant
            k <= list@.len(),
            list@ == before,
            s == route_views(list@),
            place_for(s, route_bin(), p.tau_bin as int, s.len() as int) == place_for(
                s,
                route_bin(),
                p.tau_bin as int,
                k as int,
            ),
        decreases k,
    {
        k -= 1;
    }
    assert(place_for(s, route_bin(), p.tau_bin as int, k as int) == k);
    list.insert(k, p);
    assert(list@ == before.insert(k as int, p));
    assert(route_views(list@) =~= s.insert(k as int, route_view(p)));
    assert forall|i: int| 0 <= i < list@.len() implies text_of(
        (#[trigger] list@[i]).bundle.variant_key,
    ) == Some(variant) by {
        if i < k {
            assert(list@[i] == before[i]);
        } else if i > k {
            assert(list@[i] == before[i - 1]);
        }
    }
}

/// What keeps routes from being found.
pub open spec fn order_fault(
    args: QsL2PrefixCalArgs,
    parsed: PrefixCalBundleManifest,
    router: PrefixOrderRouterFile,
) -> Option<V4Error> {
    if router.format@ != "L2PrefixOrderRouterV1"@ {
        Some(V4Error::Format)
    } else if variant_of(args, Some(parsed)) is None {
        Some(V4Error::NoVariant)
    } else {
        None
    }
}

/// Finds the routes of a router, by bin of the threshold.
pub fn load_v4_order_router(
    args: &QsL2PrefixCalArgs,
    manifest_path: &str,
    parsed: &PrefixCalBundleManifest,
    router: &PrefixOrderRouterFile,
) -> (r: Result<OrderPlan, V4Error>)
    ensures
        match order_fault(*args, *parsed, *router) {
            Some(e) => r == Err::<OrderPlan, V4Error>(e),
            None => {
                &&& r is Ok
                &&& Some(r->Ok_0.variant@) == variant_of(*args, Some(*parsed))
                &&& r->Ok_0.telemetry_schema_version == match parsed.telemetry_schema_version {
                    Some(v) => v,
                    None => 3,
                }
                &&& route_views(r->Ok_0.routes@) == sorted(
                    routes_of(manifest_path@, router.bundles@, router.bundles@.len() as int),
                    route_bin(),
                )
                &&& forall|i: int|
                    0 <= i < r->Ok_0.routes@.len() ==> text_of(
                        (#[trigger] r->Ok_0.routes@[i]).bundle.variant_key,
                    ) == variant_of(*args, Some(*parsed))
            },
        },
{
    if !same_text(router.format.as_str(), "L2PrefixOrderRouterV1") {
        return Err(V4Error::Format);
    }
    let variant: String = match select_variant(args, parsed) {
        None => {
            return Err(V4Error::NoVariant);
        },
        Some(v) => v,
    };
    let mut routes: Vec<RoutePlan> = Vec::new();
    let ghost all = router.bundles@;
    let ghost path = manifest_path@;
    let mut i: usize = 0;
    assert(routes_of(path, all, 0) =~= Seq::empty());
    assert(route_views(routes@) =~= sorted(routes_of(path, all, 0), route_bin()));
    while i < router.bundles.len()
        invariant
            i <= router.bundles@.len(),
            all == router.bundles@,
            path == manifest_path@,
            route_views(routes@) == sorted(routes_of(path, all, i as int), route_bin()),
            forall|k: int|
                0 <= k < routes@.len() ==> text_of((#[trigger] routes@[k]).bundle.variant_key)
                    == Some(variant@),
        decreases router.bundles@.len() - i,
    {
        let e: &PrefixOrderRouterEntry = &router.bundles[i];
        let label: String = match &e.label {
            Some(l) => l.as_str().to_owned(),
            None => "tau_bin_".to_owned().concat(write_decimal(e.tau_bin as u64).as_str()),
        };
        let child: String = resolve_relative_to(manifest_path, e.bundle_manifest.as_str());
        let one: RoutePlan = RoutePlan {
            tau_bin: e.tau_bin,
            label,
            bundle: child_args(child, variant.as_str()),
        };
        assert(route_view(one) =~= route_of(path, all[i as int]));
        put_route(&mut routes, one, Ghost(variant@));
        let ghost next = routes_of(path, all, i + 1);
        assert(next.drop_last() =~= routes_of(path, all, i as int));
        i += 1;
    }
    let telemetry_schema_version: u32 = match parsed.telemetry_schema_version {
        Some(v) => v,
        None => 3,
    };
    Ok(OrderPlan { routes, variant, telemetry_schema_version })
}

} // verus!
