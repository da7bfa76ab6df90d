//! Where the files of a model lie.
//!
//! Paths are those of Unix: text with `/` between their parts. Whether a file is there is asked of
//! the caller.

use crate::scan::chars_of;
use crate::text::{decimal, law_decimals_are_read_back, text_of, write_decimal};
use vstd::prelude::*;

verus! {

/// What [`std::path::Path::file_name`] gives for a path of text.
pub uninterp spec fn last_part(path: Seq<char>) -> Option<Seq<char>>;

/// What [`std::path::Path::parent`] gives for a path of text.
pub uninterp spec fn parent_part(path: Seq<char>) -> Option<Seq<char>>;

/// Whether a path starts at the root.
pub open spec fn rooted(path: Seq<char>) -> bool {
    path.len() > 0 && path[0] == '/'
}

/// A path below another: a path that starts at the root replaces the first, and otherwise there is
/// a `/` between the two, unless the first is empty or ends in one.
pub open spec fn joined(path: Seq<char>, part: Seq<char>) -> Seq<char> {
    if rooted(part) || path.len() == 0 {
        part
    } else if path.last() == '/' {
        path + part
    } else {
        path.push('/') + part
    }
}

/// A path with another file name: beside the file that it names, or below it where it names none.
pub open spec fn renamed(path: Seq<char>, name: Seq<char>) -> Seq<char> {
    match (last_part(path), parent_part(path)) {
        (Some(_), Some(dir)) => joined(dir, name),
        _ => joined(path, name),
    }
}

/// Whether a text can be the name of a file: it is not empty, holds no `/`, and does not stand for
/// a directory or the one above it.
pub open spec fn plain_name(name: Seq<char>) -> bool {
    &&& name.len() > 0
    &&& !name.contains('/')
    &&& name != seq!['.']
    &&& name != seq!['.', '.']
}

/// What [`std::path::Path::strip_prefix`] gives for paths of text, where the first begins with the
/// second.
pub uninterp spec fn stripped(path: Seq<char>, base: Seq<char>) -> Option<Seq<char>>;

/// Calls [`std::path::Path::file_name`]. What it gives is a function of the path alone, and is
/// the name of a file.
#[verifier::external_body]
fn path_file_name(path: &str) -> (r: Option<String>)
    ensures
        text_of(r) == last_part(path@),
        r matches Some(name) ==> plain_name(name@),
{
    std::path::Path::new(path).file_name().and_then(|x| x.to_str()).map(|x| x.to_owned())
}

/// Calls [`std::path::Path::parent`]. What it gives is a function of the path alone.
#[verifier::external_body]
fn path_parent(path: &str) -> (r: Option<String>)
    ensures
        text_of(r) == parent_part(path@),
{
    std::path::Path::new(path).parent().map(|x| x.to_string_lossy().into_owned())
}

/// Calls [`std::path::Path::join`]: the second path below the first, or the second alone where it
/// starts at the root.
#[verifier::external_body]
fn path_join(path: &str, part: &str) -> (r: String)
    ensures
        r@ == joined(path@, part@),
{
    std::path::Path::new(path).join(part).to_string_lossy().into_owned()
}

/// Calls [`std::path::Path::with_file_name`]: the name joined to the parent of the path, or to the
/// path itself where it has no file name. Where it has one and the new name is that of a file, the
/// new path has the new name and the same parent.
#[verifier::external_body]
fn path_with_file_name(path: &str, name: &str) -> (r: String)
    ensures
        r@ == renamed(path@, name@),
        last_part(path@) is Some && plain_name(name@) ==> last_part(r@) == Some(name@)
            && parent_part(r@) == parent_part(path@),
{
    std::path::Path::new(path).with_file_name(name).to_string_lossy().into_owned()
}

/// Computes [`rooted`].
fn path_is_absolute(path: &str) -> (r: bool)
    ensures
        r == rooted(path@),
{
    let c: Vec<char> = chars_of(path);
    c.len() > 0 && c[0] == '/'
}

/// Calls [`std::path::Path::strip_prefix`]. What it gives is a function of the two paths; there is
/// nothing where the first does not begin with the second.
#[verifier::external_body]
fn path_strip_prefix(path: &str, base: &str) -> (r: Option<String>)
    ensures
        text_of(r) == stripped(path@, base@),
{
    std::path::Path::new(path).strip_prefix(base).ok().and_then(|x| x.to_str()).map(
        |x| x.to_owned(),
    )
}

/// A file name with a suffix, or a name of its own where there is none.
pub open spec fn suffixed(name: Option<Seq<char>>, suffix: Seq<char>, other: Seq<char>) -> Seq<char> {
    match name {
        Some(x) => x + suffix,
        None => other,
    }
}

/// Computes [`suffixed`].
pub fn with_suffix(name: Option<String>, suffix: &str, other: &str) -> (r: String)
    ensures
        r@ == suffixed(text_of(name), suffix@, other@),
{
    match name {
        Some(x) => x.concat(suffix),
        None => other.to_owned(),
    }
}

/// The path beside `path` whose file name carries a suffix.
pub open spec fn beside(path: Seq<char>, suffix: Seq<char>, other: Seq<char>) -> Seq<char> {
    renamed(path, suffixed(last_part(path), suffix, other))
}

/// Whether a path lies in the directory of another under a name that carries a suffix.
pub open spec fn lies_beside(r: Seq<char>, path: Seq<char>, suffix: Seq<char>) -> bool {
    last_part(path) matches Some(name) ==> {
        &&& last_part(r) == Some(name + suffix)
        &&& parent_part(r) == parent_part(path)
    }
}

/// A name with more behind it is still a name.
proof fn lemma_longer_name(name: Seq<char>, suffix: Seq<char>)
    requires
        plain_name(name),
        suffix.len() > 1,
        suffix[0] == '.',
        !suffix.contains('/'),
    ensures
        plain_name(name + suffix),
{
    let long = name + suffix;
    assert forall|i: int| 0 <= i < long.len() implies long[i] != '/' by {
        if i < name.len() {
            assert(name.contains(name[i]));
        } else {
            assert(suffix.contains(suffix[i - name.len()]));
        }
    }
    assert(long.len() > 2);
}

fn default_beside(path: &str, suffix: &str, other: &str) -> (r: String)
    requires
        suffix@.len() > 1,
        suffix@[0] == '.',
        !suffix@.contains('/'),
    ensures
        r@ == beside(path@, suffix@, other@),
        lies_beside(r@, path@, suffix@),
{
    let found: Option<String> = path_file_name(path);
    proof {
        if let Some(x) = text_of(found) {
            lemma_longer_name(x, suffix@);
        }
    }
    let name: String = with_suffix(found, suffix, other);
    path_with_file_name(path, name.as_str())
}

/// Where the compact form of a pack of first trees lies.
pub fn default_compiled_hot_pack_path(path: &str) -> (r: String)
    ensures
        r@ == beside(path@, ".compiled.bin"@, "hot_prefix.compiled.bin"@),
        lies_beside(r@, path@, ".compiled.bin"@),
{
    proof {
        reveal_strlit(".compiled.bin");
    }
    default_beside(path, ".compiled.bin", "hot_prefix.compiled.bin")
}

/// Where the second version of a pack lies.
pub fn default_qs_pack_v2_path(path: &str) -> (r: String)
    ensures
        r@ == beside(path@, ".v2.bin"@, "qs.pack.v2.bin"@),
        lies_beside(r@, path@, ".v2.bin"@),
{
    proof {
        reveal_strlit(".v2.bin");
    }
    default_beside(path, ".v2.bin", "qs.pack.v2.bin")
}

/// Where the layout of the checkpoints lies.
pub fn default_hot_checkpoint_layout_path(path: &str) -> (r: String)
    ensures
        r@ == beside(path@, ".hot_layout.bin"@, "hot_prefix.hot_layout.bin"@),
        lies_beside(r@, path@, ".hot_layout.bin"@),
{
    proof {
        reveal_strlit(".hot_layout.bin");
    }
    default_beside(path, ".hot_layout.bin", "hot_prefix.hot_layout.bin")
}

/// Where the list of the late stretches lies.
pub fn default_late_segment_manifest_path(path: &str) -> (r: String)
    ensures
        r@ == beside(path@, ".late_segments.json"@, "late_segments.json"@),
        lies_beside(r@, path@, ".late_segments.json"@),
{
    proof {
        reveal_strlit(".late_segments.json");
    }
    default_beside(path, ".late_segments.json", "late_segments.json")
}

/// The name that a late stretch adds to that of its pack.
pub open spec fn late_suffix(checkpoint: nat) -> Seq<char> {
    ".late_cp_"@ + decimal(checkpoint) + ".v2.bin"@
}

/// The name of a late stretch whose pack has none.
pub open spec fn late_name(checkpoint: nat) -> Seq<char> {
    "late_cp_"@ + decimal(checkpoint) + ".v2.bin"@
}

/// Writes [`late_name`].
pub fn late_segment_file_name(checkpoint: usize) -> (r: String)
    ensures
        r@ == late_name(checkpoint as nat),
{
    "late_cp_".to_owned().concat(write_decimal(checkpoint as u64).as_str()).concat(".v2.bin")
}

/// Where the pack of a late stretch lies.
pub fn default_late_segment_pack_path(path: &str, checkpoint: usize) -> (r: String)
    ensures
        r@ == beside(path@, late_suffix(checkpoint as nat), late_name(checkpoint as nat)),
        lies_beside(r@, path@, late_suffix(checkpoint as nat)),
        last_part(path@) is Some ==> r@ != path@,
{
    let suffix: String = ".late_cp_".to_owned().concat(
        write_decimal(checkpoint as u64).as_str(),
    ).concat(".v2.bin");
    let other: String = late_segment_file_name(checkpoint);
    proof {
        lemma_late_suffix(checkpoint as nat);
        if let Some(name) = last_part(path@) {
            assert((name + suffix@).len() > name.len());
        }
    }
    default_beside(path, suffix.as_str(), other.as_str())
}

/// What a late stretch adds to a name begins with a dot and holds no `/`.
proof fn lemma_late_suffix(checkpoint: nat)
    ensures
        late_suffix(checkpoint).len() > 1,
        late_suffix(checkpoint)[0] == '.',
        !late_suffix(checkpoint).contains('/'),
{
    reveal_strlit(".late_cp_");
    reveal_strlit(".v2.bin");
    law_decimals_are_read_back(checkpoint);
    let s = late_suffix(checkpoint);
    let n = decimal(checkpoint).len() as int;
    assert forall|i: int| 0 <= i < s.len() implies s[i] != '/' by {
        if 9 <= i < 9 + n {
            assert(s[i] == decimal(checkpoint)[i - 9]);
        }
    }
}

/// Different paths below one path are different where both or neither start at the root.
proof fn lemma_joined_apart(path: Seq<char>, a: Seq<char>, b: Seq<char>)
    requires
        rooted(a) == rooted(b),
        a != b,
    ensures
        joined(path, a) != joined(path, b),
{
    if !rooted(a) && path.len() > 0 {
        let base = if path.last() == '/' {
            path
        } else {
            path.push('/')
        };
        assert((base + a).skip(base.len() as int) =~= a);
        assert((base + b).skip(base.len() as int) =~= b);
    }
}

/// The packs of late stretches at different checkpoints lie apart.
pub proof fn law_late_stretches_lie_apart(path: Seq<char>, a: nat, b: nat)
    requires
        a != b,
    ensures
        beside(path, late_suffix(a), late_name(a)) != beside(path, late_suffix(b), late_name(b)),
{
    reveal_strlit(".late_cp_");
    reveal_strlit(".v2.bin");
    reveal_strlit("late_cp_");
    law_decimals_are_read_back(a);
    law_decimals_are_read_back(b);
    lemma_late_suffix(a);
    lemma_late_suffix(b);
    let one = suffixed(last_part(path), late_suffix(a), late_name(a));
    let two = suffixed(last_part(path), late_suffix(b), late_name(b));
    let k: int = match last_part(path) {
        Some(name) => name.len() as int + 9,
        None => 8,
    };
    if one == two {
        assert(one.subrange(k, one.len() - 7) =~= decimal(a));
        assert(two.subrange(k, two.len() - 7) =~= decimal(b));
    }
    match (last_part(path), parent_part(path)) {
        (Some(_), Some(dir)) => lemma_joined_apart(dir, one, two),
        _ => lemma_joined_apart(path, one, two),
    }
}

/// Where the plan of the certifier lies.
pub fn default_certify_plan_path(path: &str) -> (r: String)
    ensures
        r@ == beside(path@, ".certify.bin"@, "l2_certify.bin"@),
        lies_beside(r@, path@, ".certify.bin"@),
{
    proof {
        reveal_strlit(".certify.bin");
    }
    default_beside(path, ".certify.bin", "l2_certify.bin")
}

/// Where the description of a prepared model lies.
pub fn default_prefix_v2_manifest_path(path: &str) -> (r: String)
    ensures
        r@ == beside(path@, ".prefix_v2.json"@, "prefix_v2.json"@),
        lies_beside(r@, path@, ".prefix_v2.json"@),
{
    proof {
        reveal_strlit(".prefix_v2.json");
    }
    default_beside(path, ".prefix_v2.json", "prefix_v2.json")
}

/// Where the stages of a prepared model lie.
pub fn default_prefix_v2_hot_stage_plan_path(path: &str) -> (r: String)
    ensures
        r@ == beside(path@, ".prefix_v2.hot_stage.bin"@, "prefix_v2.hot_stage.bin"@),
        lies_beside(r@, path@, ".prefix_v2.hot_stage.bin"@),
{
    proof {
        reveal_strlit(".prefix_v2.hot_stage.bin");
    }
    default_beside(path, ".prefix_v2.hot_stage.bin", "prefix_v2.hot_stage.bin")
}

/// The file name of a path, or the whole path where it has none.
pub fn file_name_string(path: &str) -> (r: String)
    ensures
        r@ == suffixed(last_part(path@), Seq::empty(), path@),
{
    let name: Option<String> = path_file_name(path);
    let r: String = match name {
        Some(x) => x,
        None => path.to_owned(),
    };
    assert(forall|s: Seq<char>| #[trigger] (s + Seq::<char>::empty()) =~= s);
    r
}

/// A path seen from a directory, or its file name where it does not lie there.
pub open spec fn seen_from(path: Seq<char>, base: Seq<char>) -> Seq<char> {
    match stripped(path, base) {
        Some(s) => s,
        None => suffixed(last_part(path), Seq::empty(), path),
    }
}

/// Computes [`seen_from`].
pub fn path_seen_from(path: &str, base: &str) -> (r: String)
    ensures
        r@ == seen_from(path@, base@),
{
    match path_strip_prefix(path, base) {
        Some(s) => s,
        None => file_name_string(path),
    }
}

/// The directory of a file; the current one where the path has none.
pub open spec fn directory(path: Seq<char>) -> Seq<char> {
    match parent_part(path) {
        Some(p) => p,
        None => "."@,
    }
}

/// Computes [`directory`].
pub fn directory_of(path: &str) -> (r: String)
    ensures
        r@ == directory(path@),
{
    match path_parent(path) {
        Some(p) => p,
        None => ".".to_owned(),
    }
}

/// A file in the directory of another.
pub fn in_directory(path: &str, name: &str) -> (r: String)
    ensures
        r@ == joined(directory(path@), name@),
{
    let dir: String = directory_of(path);
    path_join(dir.as_str(), name)
}

/// A directory beside a file.
pub open spec fn sibling(path: Seq<char>, name: Seq<char>) -> Seq<char> {
    match parent_part(path) {
        Some(p) => joined(p, name),
        None => name,
    }
}

/// The two directories that packaged models lie in.
pub fn package_dir(qs_pack: &str, zen4: bool) -> (r: String)
    ensures
        r@ == sibling(
            qs_pack@,
            if zen4 {
                "l2_kernel_zen4_v1"@
            } else {
                "l2_exp_v1"@
            },
        ),
{
    let name: &str = if zen4 {
        "l2_kernel_zen4_v1"
    } else {
        "l2_exp_v1"
    };
    match path_parent(qs_pack) {
        Some(p) => path_join(p.as_str(), name),
        None => name.to_owned(),
    }
}

/// A path taken from a file at `base`: relative to that file's directory unless it is absolute.
pub open spec fn relative_to(base: Seq<char>, raw: Seq<char>) -> Seq<char> {
    if rooted(raw) {
        raw
    } else {
        sibling(base, raw)
    }
}

/// Computes [`relative_to`].
pub fn resolve_relative_to(base_path: &str, raw: &str) -> (r: String)
    ensures
        r@ == relative_to(base_path@, raw@),
{
    if path_is_absolute(raw) {
        raw.to_owned()
    } else {
        match path_parent(base_path) {
            Some(p) => path_join(p.as_str(), raw),
            None => raw.to_owned(),
        }
    }
}

/// Whether what the caller says of files agrees with `m`.
pub open spec fn tells<P: Fn(&str) -> bool>(present: P, m: spec_fn(Seq<char>) -> bool) -> bool {
    forall|path: &str, b: bool| #[trigger]
        call_ensures(present, (path,), b) ==> b == m(path@)
}

/// Whether the caller can be asked about every file.
pub open spec fn asked<P: Fn(&str) -> bool>(present: P) -> bool {
    forall|path: &str| #[trigger] call_requires(present, (path,))
}

/// A path taken from a file at `base`, or as it stands where no file lies there.
pub open spec fn compatible(m: spec_fn(Seq<char>) -> bool, base: Seq<char>, raw: Seq<char>) -> Seq<
    char,
> {
    if rooted(raw) || !m(relative_to(base, raw)) {
        raw
    } else {
        relative_to(base, raw)
    }
}

/// Computes [`compatible`].
pub fn resolve_relative_compat<P: Fn(&str) -> bool>(present: &P, base_path: &str, raw: &str) -> (r:
    String)
    requires
        asked(*present),
    ensures
        forall|m: spec_fn(Seq<char>) -> bool| #[trigger]
            tells(*present, m) ==> r@ == compatible(m, base_path@, raw@),
{
    if path_is_absolute(raw) {
        return raw.to_owned();
    }
    let candidate: String = resolve_relative_to(base_path, raw);
    if present(candidate.as_str()) {
        candidate
    } else {
        raw.to_owned()
    }
}

/// A path given directly, or one taken from a manifest.
pub open spec fn sought(
    m: spec_fn(Seq<char>) -> bool,
    given: Option<Seq<char>>,
    listed: Option<Seq<char>>,
    manifest: Option<Seq<char>>,
) -> Option<Seq<char>> {
    match given {
        Some(p) => Some(p),
        None => match listed {
            None => None,
            Some(raw) => Some(
                match manifest {
                    None => raw,
                    Some(base) => compatible(m, base, raw),
                },
            ),
        },
    }
}

/// Computes [`sought`].
pub fn resolve_bundle_path_optional<P: Fn(&str) -> bool>(
    present: &P,
    cli_value: &Option<String>,
    manifest_value: &Option<String>,
    manifest_path: &Option<String>,
) -> (r: Option<String>)
    requires
        asked(*present),
    ensures
        r is Some <==> cli_value is Some || manifest_value is Some,
        forall|m: spec_fn(Seq<char>) -> bool| #[trigger]
            tells(*present, m) ==> text_of(r) == sought(
                m,
                text_of(*cli_value),
                text_of(*manifest_value),
                text_of(*manifest_path),
            ),
{
    if let Some(path) = cli_value {
        return Some(path.as_str().to_owned());
    }
    match manifest_value {
        None => None,
        Some(raw) => match manifest_path {
            None => Some(raw.as_str().to_owned()),
            Some(base) => Some(resolve_relative_compat(present, base.as_str(), raw.as_str())),
        },
    }
}

/// A file that a model cannot do without.
#[derive(Clone, Copy, Debug, PartialEq, Eq, Structural)]
pub enum BundleField {
    PackPath,
    CalibrationJson,
    FeatBin,
    RouteMeta,
    SoaBin,
    BoundsBin,
    TreeOrderBin,
    ModelJson,
}

/// Why the files of a model cannot be found.
#[derive(Clone, Copy, Debug, PartialEq, Eq, Structural)]
pub enum BundleError {
    Format,
    NoVariant,
    DirectKernel,
    CertifierKind,
    Missing { field: BundleField },
}

/// The name of a field.
pub open spec fn field_words(field: BundleField) -> Seq<char> {
    match field {
        BundleField::PackPath => "pack_path"@,
        BundleField::CalibrationJson => "calibration_json"@,
        BundleField::FeatBin => "feat_bin"@,
        BundleField::RouteMeta => "route_meta"@,
        BundleField::SoaBin => "soa_bin"@,
        BundleField::BoundsBin => "bounds_bin"@,
        BundleField::TreeOrderBin => "tree_order_bin"@,
        BundleField::ModelJson => "model_json"@,
    }
}

/// Computes [`field_words`].
pub fn field_name(field: BundleField) -> (r: &'static str)
    ensures
        r@ == field_words(field),
{
    match field {
        BundleField::PackPath => "pack_path",
        BundleField::CalibrationJson => "calibration_json",
        BundleField::FeatBin => "feat_bin",
        BundleField::RouteMeta => "route_meta",
        BundleField::SoaBin => "soa_bin",
        BundleField::BoundsBin => "bounds_bin",
        BundleField::TreeOrderBin => "tree_order_bin",
        BundleField::ModelJson => "model_json",
    }
}

/// What is said of a field that is not known.
pub fn missing_field_text(name: &str) -> (r: String)
    ensures
        r@ == "missing required prefix-cal field: "@ + name@,
{
    "missing required prefix-cal field: ".to_owned().concat(name)
}

/// What is said of a file that is not there.
pub fn missing_asset_text(path: &str) -> (r: String)
    ensures
        r@ == "required bundle asset missing: "@ + path@,
{
    "required bundle asset missing: ".to_owned().concat(path)
}

/// A path that must be known.
pub fn resolve_bundle_path<P: Fn(&str) -> bool>(
    present: &P,
    cli_value: &Option<String>,
    manifest_value: &Option<String>,
    manifest_path: &Option<String>,
    field: BundleField,
) -> (r: Result<String, BundleError>)
    requires
        asked(*present),
    ensures
        match r {
            Ok(p) => (cli_value is Some || manifest_value is Some) && forall|
                m: spec_fn(Seq<char>) -> bool,
            | #[trigger]
                tells(*present, m) ==> Some(p@) == sought(
                    m,
                    text_of(*cli_value),
                    text_of(*manifest_value),
                    text_of(*manifest_path),
                ),
            Err(e) => cli_value is None && manifest_value is None && e == BundleError::Missing {
                field,
            },
        },
{
    match resolve_bundle_path_optional(present, cli_value, manifest_value, manifest_path) {
        Some(p) => Ok(p),
        None => Err(BundleError::Missing { field }),
    }
}

/// A path made absolute below `root`.
pub open spec fn under(root: Seq<char>, path: Seq<char>) -> Seq<char> {
    if rooted(path) {
        path
    } else {
        joined(root, path)
    }
}

/// Computes [`under`].
pub fn bundle_abspath(root: &str, path: &str) -> (r: String)
    ensures
        r@ == under(root@, path@),
{
    if path_is_absolute(path) {
        path.to_owned()
    } else {
        path_join(root, path)
    }
}

/// Below a root that starts at the root, every path starts there.
pub proof fn law_paths_below_a_root_are_rooted(root: Seq<char>, path: Seq<char>)
    requires
        rooted(root),
    ensures
        rooted(under(root, path)),
        under(root, under(root, path)) == under(root, path),
{
}

/// A file below `root` that must be there.
pub fn require_path<P: Fn(&str) -> bool>(present: &P, root: &str, rel: &str) -> (r: Result<
    String,
    String,
>)
    requires
        asked(*present),
    ensures
        match r {
            Ok(p) => p@ == joined(root@, rel@),
            Err(p) => p@ == joined(root@, rel@),
        },
        forall|m: spec_fn(Seq<char>) -> bool| #[trigger]
            tells(*present, m) ==> (r is Ok <==> m(joined(root@, rel@))),
{
    let path: String = path_join(root, rel);
    if present(path.as_str()) {
        Ok(path)
    } else {
        Err(path)
    }
}

} // verus!
