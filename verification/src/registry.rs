//! Concurrent name-to-resource registries, backed by `dashmap::DashMap` and
//! modelled as `Map`s from the key's character sequence to the entry's
//! contents.

use vstd::prelude::*;

verus! {

/// Immutable sampling-filter configuration: point sampling or trilinear
/// interpolation across all three axes (and the single mip level).
#[derive(Debug, Clone, Copy, PartialEq, Eq, Structural)]
pub enum FilterMode {
    Nearest,
    Linear,
}

/// A registered LUT volume: its cubic edge length and the dense RGBA float32
/// texel bytes, laid out so grid index `(r, g, b)` sits at voxel offset
/// `r + g*dim + b*dim*dim`.
#[derive(Debug, Clone)]
pub struct LutEntry {
    pub dim: u32,
    pub bytes: Vec<u8>,
}

#[verifier::external_type_specification]
#[verifier::external_body]
#[verifier::reject_recursive_types(K)]
#[verifier::reject_recursive_types(V)]
#[verifier::reject_recursive_types(S)]
pub struct ExDashMap<K, V, S>(dashmap::DashMap<K, V, S>);

/// What the LUT registry holds: each registered name's dimension and volume
/// bytes.
pub uninterp spec fn lut_map_view(m: dashmap::DashMap<String, LutEntry>) -> Map<
    Seq<char>,
    (u32, Seq<u8>),
>;

/// What the sampler registry holds: each registered name's filter mode.
pub uninterp spec fn sampler_map_view(m: dashmap::DashMap<String, FilterMode>) -> Map<
    Seq<char>,
    FilterMode,
>;

/// The empty LUT registry contents.
pub open spec fn empty_lut_map() -> Map<Seq<char>, (u32, Seq<u8>)> {
    Map::empty()
}

/// The empty sampler registry contents.
pub open spec fn empty_sampler_map() -> Map<Seq<char>, FilterMode> {
    Map::empty()
}

/// Relies on dashmap::DashMap::new: the new map is empty.
#[verifier::external_body]
pub(crate) fn lut_map_new() -> (m: dashmap::DashMap<String, LutEntry>)
    ensures
        lut_map_view(m) == empty_lut_map(),
{
    dashmap::DashMap::new()
}

/// Relies on dashmap::DashMap::insert: maps the key to the value, replacing
/// any entry the key had.
#[verifier::external_body]
pub(crate) fn lut_map_insert(m: &mut dashmap::DashMap<String, LutEntry>, k: &str, v: LutEntry)
    ensures
        lut_map_view(*final(m)) == lut_map_view(*old(m)).insert(k@, (v.dim, v.bytes@)),
{
    m.insert(k.to_owned(), v);
}

/// Relies on dashmap::DashMap::get: returns the entry under the key, if any.
#[verifier::external_body]
pub(crate) fn lut_map_get(m: &dashmap::DashMap<String, LutEntry>, k: &str) -> (r: Option<LutEntry>)
    ensures
        r is Some <==> lut_map_view(*m).dom().contains(k@),
        r is Some ==> (r->0.dim, r->0.bytes@) == lut_map_view(*m)[k@],
{
    m.get(k).map(|e| e.value().clone())
}

/// Relies on dashmap::DashMap::contains_key.
#[verifier::external_body]
pub(crate) fn lut_map_contains(m: &dashmap::DashMap<String, LutEntry>, k: &str) -> (r: bool)
    ensures
        r == lut_map_view(*m).dom().contains(k@),
{
    m.contains_key(k)
}

/// Relies on dashmap::DashMap::remove: drops the entry under the key, if any.
#[verifier::external_body]
pub(crate) fn lut_map_remove(m: &mut dashmap::DashMap<String, LutEntry>, k: &str)
    ensures
        lut_map_view(*final(m)) == lut_map_view(*old(m)).remove(k@),
{
    m.remove(k);
}

/// Relies on dashmap::DashMap::new: the new map is empty.
#[verifier::external_body]
pub(crate) fn sampler_map_new() -> (m: dashmap::DashMap<String, FilterMode>)
    ensures
        sampler_map_view(m) == empty_sampler_map(),
{
    dashmap::DashMap::new()
}

/// Relies on dashmap::DashMap::insert: maps the key to the value, replacing
/// any entry the key had.
#[verifier::external_body]
pub(crate) fn sampler_map_insert(m: &mut dashmap::DashMap<String, FilterMode>, k: &str, v: FilterMode)
    ensures
        sampler_map_view(*final(m)) == sampler_map_view(*old(m)).insert(k@, v),
{
    m.insert(k.to_owned(), v);
}

/// Relies on dashmap::DashMap::get: returns the entry under the key, if any.
#[verifier::external_body]
pub(crate) fn sampler_map_get(m: &dashmap::DashMap<String, FilterMode>, k: &str) -> (r: Option<
    FilterMode,
>)
    ensures
        r is Some <==> sampler_map_view(*m).dom().contains(k@),
        r is Some ==> r->0 == sampler_map_view(*m)[k@],
{
    m.get(k).map(|e| *e.value())
}

} // verus!
