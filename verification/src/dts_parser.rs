//! The hypervisor's configuration, read from a flattened device tree.
//!
//! The node `/hypervisor-config` gives the vector length (`vlen-size`) and has
//! one child per guest, each with an `entry` address, a `hart-capacity`, the
//! `path` of its image and, optionally, the harts it is pinned to
//! (`assigned-harts`, a list of big-endian 32-bit hart ids).
//!
//! The tree is walked with the `fdt` crate; what is read from it goes, as raw
//! property bytes, to [`assemble_configuration`], which decodes and checks it
//! and builds the configuration.

use vstd::prelude::*;

verus! {

/// The number that bytes `s` spell in big-endian order.
pub open spec fn be_value(s: Seq<u8>) -> nat
    decreases s.len(),
{
    if s.len() == 0 {
        0
    } else {
        be_value(s.drop_last()) * 256 + s.last() as nat
    }
}

/// A blob whose header the `fdt` crate accepts: the ten header words are
/// there, the first is the magic `0xd00dfeed` and the second, the total size,
/// is no more than the blob's length.
pub open spec fn blob_header_ok(blob: Seq<u8>) -> bool {
    &&& blob.len() >= 40
    &&& be_value(blob.subrange(0, 4)) == 0xd00d_feed
    &&& be_value(blob.subrange(4, 8)) <= blob.len()
}

/// The big-endian 32-bit word at `p` of `s`.
pub open spec fn word_at(s: Seq<u8>, p: int) -> int {
    be_value(s.subrange(p, p + 4)) as int
}

/// `n` rounded up to a multiple of four.
pub open spec fn pad4(n: int) -> int {
    (n + 3) / 4 * 4
}

/// Where the ASCII text that starts at `p` of `s` ends: the index of its NUL.
pub open spec fn text_end(s: Seq<u8>, p: int) -> Option<int>
    decreases s.len() - p,
{
    if p < 0 || p >= s.len() {
        None
    } else if s[p] == 0 {
        Some(p)
    } else if s[p] >= 0x80 {
        None
    } else {
        text_end(s, p + 1)
    }
}

/// Where the properties that start at `p` of the structure block `s` end: each
/// is the token 3, the value's length, the offset of its name in the strings
/// block `t` (an ASCII text that does not start with `/`), and the value
/// padded to four bytes.
pub open spec fn props_end(s: Seq<u8>, t: Seq<u8>, p: int) -> Option<int>
    decreases s.len() - p,
{
    if 0 <= p && p + 4 <= s.len() && word_at(s, p) == 3 {
        if p + 12 <= s.len() && p + 12 + pad4(word_at(s, p + 4)) <= s.len() && text_end(
            t,
            word_at(s, p + 8),
        ) is Some && t[word_at(s, p + 8)] != 0x2f {
            props_end(s, t, p + 12 + pad4(word_at(s, p + 4)))
        } else {
            None
        }
    } else {
        Some(p)
    }
}

/// Where the node that starts at `p` of the structure block `s` ends: the
/// token 1, its name (an ASCII text, padded), its properties, its child nodes
/// and the token 2.
pub open spec fn node_end(s: Seq<u8>, t: Seq<u8>, p: int) -> Option<int>
    decreases s.len() - p, 0int,
{
    if 0 <= p && p + 4 <= s.len() && word_at(s, p) == 1 && text_end(s, p + 4) is Some {
        let after = p + 4 + pad4(text_end(s, p + 4)->0 - (p + 4) + 1);
        if after <= s.len() && props_end(s, t, after) is Some {
            let c = props_end(s, t, after)->0;
            if p < c <= s.len() && children_end(s, t, c) is Some {
                let d = children_end(s, t, c)->0;
                if 0 <= d && d + 4 <= s.len() && word_at(s, d) == 2 {
                    Some(d + 4)
                } else {
                    None
                }
            } else {
                None
            }
        } else {
            None
        }
    } else {
        None
    }
}

/// Where the child nodes that start at `c` of the structure block `s` end.
pub open spec fn children_end(s: Seq<u8>, t: Seq<u8>, c: int) -> Option<int>
    decreases s.len() - c, 1int,
{
    if 0 <= c && c + 4 <= s.len() && word_at(s, c) == 1 {
        match node_end(s, t, c) {
            Some(e) => if c < e <= s.len() {
                children_end(s, t, e)
            } else {
                None
            },
            None => None,
        }
    } else {
        Some(c)
    }
}

/// The structure block of a blob, by the offset and size in its header.
pub open spec fn structure_block(blob: Seq<u8>) -> Seq<u8> {
    blob.subrange(word_at(blob, 8), word_at(blob, 8) + word_at(blob, 36))
}

/// The strings block of a blob, by the offset and size in its header.
pub open spec fn strings_block(blob: Seq<u8>) -> Seq<u8> {
    blob.subrange(word_at(blob, 12), word_at(blob, 12) + word_at(blob, 32))
}

/// A device tree blob in the form this library reads: a valid header, a
/// structure block and a strings block inside the blob, and a structure block
/// that starts with a whole root node, without NOP tokens, whose names are
/// ASCII and whose property values and names lie in the blocks.  No property
/// name starts with `/`, so that no alias can send a search for a node path
/// round in a circle.  The `fdt` crate walks such a blob without panicking,
/// and its searches end.
pub open spec fn fdt_structure_ok(blob: Seq<u8>) -> bool {
    &&& blob_header_ok(blob)
    &&& word_at(blob, 8) + word_at(blob, 36) <= blob.len()
    &&& word_at(blob, 12) + word_at(blob, 32) <= blob.len()
    &&& node_end(structure_block(blob), strings_block(blob), 0) is Some
}

/// What the `fdt` crate reads from a blob for the node at `path` and the
/// property names `names` and `child_names`: `None` when the tree has no node
/// at `path`; otherwise the value of each property of `names` on that node,
/// and for each of the node's children in order, the value of each property
/// of `child_names` on it (each absent where the node has no such property).
pub uninterp spec fn fdt_node_values(
    blob: Seq<u8>,
    path: Seq<char>,
    names: Seq<Seq<char>>,
    child_names: Seq<Seq<char>>,
) -> Option<(Seq<Option<Seq<u8>>>, Seq<Seq<Option<Seq<u8>>>>)>;

/// The path of the configuration's node.
pub open spec fn config_path() -> Seq<char> {
    "/hypervisor-config"@
}

/// The names of the properties of the configuration's node.
pub open spec fn config_names() -> Seq<Seq<char>> {
    seq!["vlen-size"@]
}

/// The names of the properties of a guest node.
pub open spec fn guest_names() -> Seq<Seq<char>> {
    seq!["entry"@, "hart-capacity"@, "path"@, "assigned-harts"@]
}

/// The properties of the configuration as the `fdt` crate reads them.
pub open spec fn config_values(blob: Seq<u8>) -> Option<(Seq<Option<Seq<u8>>>, Seq<Seq<Option<Seq<u8>>>>)> {
    fdt_node_values(blob, config_path(), config_names(), guest_names())
}

/// The views of property names.
pub open spec fn names_view(names: Seq<&str>) -> Seq<Seq<char>> {
    names.map_values(|n: &str| n@)
}

/// The bytes of an optional property value.
pub open spec fn bytes_view(o: Option<Vec<u8>>) -> Option<Seq<u8>> {
    match o {
        Some(v) => Some(v@),
        None => None,
    }
}

/// The property values of a guest node.
pub open spec fn guest_view(g: GuestProperties) -> (
    Option<Seq<u8>>,
    Option<Seq<u8>>,
    Option<Seq<u8>>,
    Option<Seq<u8>>,
) {
    (bytes_view(g.entry), bytes_view(g.hart_capacity), bytes_view(g.path), bytes_view(g.assigned_harts))
}

/// The property values of a list of values.
pub open spec fn values_view(v: Vec<Option<Vec<u8>>>) -> Seq<Option<Seq<u8>>> {
    v@.map_values(|o: Option<Vec<u8>>| bytes_view(o))
}

/// The property values of a guest node, from its values in the order of
/// [`guest_names`].
pub open spec fn guest_tuple(c: Seq<Option<Seq<u8>>>) -> (
    Option<Seq<u8>>,
    Option<Seq<u8>>,
    Option<Seq<u8>>,
    Option<Seq<u8>>,
) {
    (c[0], c[1], c[2], c[3])
}

/// The raw configuration that the values read give: the vector length and
/// each guest node's four properties.
pub open spec fn config_of_values(
    vals: Option<(Seq<Option<Seq<u8>>>, Seq<Seq<Option<Seq<u8>>>>)>,
) -> Option<
    (
        Option<Seq<u8>>,
        Seq<(Option<Seq<u8>>, Option<Seq<u8>>, Option<Seq<u8>>, Option<Seq<u8>>)>,
    ),
> {
    match vals {
        Some((v, cs)) => Some((v[0], cs.map_values(|c: Seq<Option<Seq<u8>>>| guest_tuple(c)))),
        None => None,
    }
}

/// The raw configuration held in a vector length and guest nodes.
pub open spec fn config_view(vlen: Option<Vec<u8>>, gs: Vec<GuestProperties>) -> Option<
    (
        Option<Seq<u8>>,
        Seq<(Option<Seq<u8>>, Option<Seq<u8>>, Option<Seq<u8>>, Option<Seq<u8>>)>,
    ),
> {
    Some((bytes_view(vlen), gs@.map_values(|g: GuestProperties| guest_view(g))))
}

/// `Fdt::new`, `Fdt::find_node(path)`, and `FdtNode::property` for each of
/// `names` on that node and for each of `child_names` on each of its
/// `FdtNode::children`, with the values copied out: the result is
/// [`fdt_node_values`] of the blob, the path and the names, one value per
/// name.  The blob must be in the form [`fdt_structure_ok`] describes, on
/// which the crate does not panic, and the path must start with `/`: where
/// no node has it, the crate then looks for an alias of that name, which no
/// property of such a blob has, and its search ends.
#[verifier::external_body]
fn node_property_values(blob: &[u8], path: &str, names: &Vec<&str>, child_names: &Vec<&str>) -> (r: Option<
    (Vec<Option<Vec<u8>>>, Vec<Vec<Option<Vec<u8>>>>),
>)
    requires
        fdt_structure_ok(blob@),
        path@.len() > 0 && path@[0] == '/',
    ensures
        r is Some <==> fdt_node_values(blob@, path@, names_view(names@), names_view(child_names@)) is Some,
        r matches Some((v, cs)) ==> fdt_node_values(blob@, path@, names_view(names@), names_view(child_names@))
            == Some((values_view(v), values_view_list(cs@))),
        r matches Some((v, cs)) ==> v@.len() == names@.len() && forall|i: int|
            0 <= i < cs@.len() ==> #[trigger] cs@[i]@.len() == child_names@.len(),
{
    let tree = fdt::Fdt::new(blob).ok()?;
    let node = tree.find_node(path)?;
    let read = |n: fdt::node::FdtNode<'_, '_>, ns: &Vec<&str>| -> Vec<Option<Vec<u8>>> {
        ns.iter().map(|name| n.property(name).map(|p| p.value.to_vec())).collect()
    };
    Some((read(node, names), node.children().map(|c| read(c, child_names)).collect()))
}

/// A guest node's properties from its values in the order of
/// [`guest_names`].
fn guest_properties_of(c: Vec<Option<Vec<u8>>>) -> (g: GuestProperties)
    requires
        c@.len() == 4,
    ensures
        guest_view(g) == guest_tuple(values_view(c)),
{
    let mut c = c;
    let ghost c0 = c@;
    let assigned_harts = c.pop().unwrap();
    let path = c.pop().unwrap();
    let hart_capacity = c.pop().unwrap();
    let entry = c.pop().unwrap();
    GuestProperties { entry, hart_capacity, path, assigned_harts }
}

/// What `NodeProperty::as_usize` makes of a property value: a 4-byte value is a
/// big-endian `u32`, an 8-byte value a big-endian `u64` taken as `usize`, any
/// other length is no integer.
pub open spec fn fdt_usize(value: Seq<u8>) -> Option<usize> {
    if value.len() == 4 {
        Some(be_value(value) as usize)
    } else if value.len() == 8 {
        Some((be_value(value) % (usize::MAX as nat + 1)) as usize)
    } else {
        None
    }
}

/// The text that `NodeProperty::as_str` reads from a property value: the
/// value as UTF-8 with its trailing NUL characters removed, or nothing where
/// the value is not UTF-8.
pub uninterp spec fn fdt_text(value: Seq<u8>) -> Option<Seq<char>>;

/// `fdt::node::NodeProperty::as_usize` on a property with the value `value`:
/// by its source, a big-endian number of 4 or 8 bytes.
#[verifier::external_body]
fn property_as_usize(value: &[u8]) -> (r: Option<usize>)
    ensures
        r == fdt_usize(value@),
{
    fdt::node::NodeProperty { name: "", value }.as_usize()
}

/// `fdt::node::NodeProperty::as_str` on a property with the value `value`,
/// copied into a `String`: the result is [`fdt_text`] of the value.
#[verifier::external_body]
fn property_as_str(value: &[u8]) -> (r: Option<String>)
    ensures
        r is Some <==> fdt_text(value@) is Some,
        r matches Some(s) ==> fdt_text(value@) == Some(s@),
{
    fdt::node::NodeProperty { name: "", value }.as_str().map(String::from)
}

/// The raw properties of one guest node, as the tree holds them.
#[derive(Debug, Clone)]
pub struct GuestProperties {
    pub entry: Option<Vec<u8>>,
    pub hart_capacity: Option<Vec<u8>>,
    pub path: Option<Vec<u8>>,
    pub assigned_harts: Option<Vec<u8>>,
}

/// A guest of the configuration.
#[derive(Debug, Clone)]
pub struct GuestConfig {
    /// Guest-physical address of the guest's first instruction.
    pub entry_gpa: usize,
    /// How many harts the guest may run on at once.
    pub hart_capacity: usize,
    /// The harts the guest is pinned to.
    pub assigned_harts: Vec<Option<u32>>,
    /// Where the guest's image is.
    pub path: String,
}

/// A hart of the configuration and the guests pinned to it, once for each
/// time a guest names it.
#[derive(Debug, Clone)]
pub struct HartConfig {
    pub hart_id: usize,
    pub guests: Vec<Option<usize>>,
}

/// The configuration that the hypervisor is built with.
#[derive(Debug, Clone)]
pub struct HypervisorConfiguration {
    pub guests: Vec<GuestConfig>,
    pub harts: Vec<HartConfig>,
    /// The hart capacities of all guests together.
    pub total_hart_capacity: usize,
    /// The largest hart capacity of a guest.
    pub max_supported_harts_per_guest: usize,
    /// How many hart assignments the guests make in all.
    pub max_supported_assigned_harts_per_guest: usize,
    /// The vector register length, in bits.
    pub vlen: usize,
}

/// Why a device tree gives no configuration. A guest is named by its place
/// among the children of `/hypervisor-config`.
#[derive(Debug, Clone, Copy, PartialEq, Eq, Structural)]
pub enum ConfigError {
    /// The blob's header is missing, has a wrong magic or a size beyond the blob.
    InvalidBlob,
    /// There is no `/hypervisor-config` node.
    MissingHypervisorConfig,
    /// The configuration has no `vlen-size`.
    MissingVlen,
    /// `vlen-size` is not a 4- or 8-byte number.
    VlenNotInteger,
    /// A guest has no `entry`.
    MissingEntry(usize),
    /// A guest's `entry` is not a 4- or 8-byte number.
    EntryNotInteger(usize),
    /// A guest has no `hart-capacity`.
    MissingHartCapacity(usize),
    /// A guest's `hart-capacity` is not a 4- or 8-byte number.
    HartCapacityNotInteger(usize),
    /// A guest has no `path`.
    MissingPath(usize),
    /// A guest's `path` is not UTF-8 text.
    PathNotText(usize),
    /// The hart capacities up to this guest overflow a `usize`.
    CapacityOverflow(usize),
    /// A guest's `assigned-harts` is not a whole number of 4-byte cells.
    AssignedHartsMisaligned(usize),
    /// The hart assignments up to this guest overflow a `usize`.
    AssignmentCountOverflow(usize),
    /// A guest is pinned to a hart id beyond the total hart capacity.
    UnknownHart(usize, u32),
}

/// The integer a property holds, where it is there and is one.
pub open spec fn prop_usize(p: Option<Vec<u8>>) -> Option<usize> {
    match p {
        Some(v) => fdt_usize(v@),
        None => None,
    }
}

/// The hart ids in an `assigned-harts` value: one per 4-byte big-endian cell.
pub open spec fn cell_ids(v: Seq<u8>) -> Seq<Option<u32>> {
    Seq::new(v.len() / 4, |k: int| Some(be_value(v.subrange(4 * k, 4 * k + 4)) as u32))
}

/// The hart ids a guest is pinned to.
pub open spec fn assigned_ids(g: GuestProperties) -> Seq<Option<u32>> {
    match g.assigned_harts {
        Some(v) => cell_ids(v@),
        None => Seq::empty(),
    }
}

/// A guest's hart capacity, as a number.
pub open spec fn capacity_of(g: GuestProperties) -> nat {
    prop_usize(g.hart_capacity).unwrap() as nat
}

/// The hart capacities of the first `n` guests, added up.
pub open spec fn capacity_sum(gs: Seq<GuestProperties>, n: int) -> nat
    decreases n,
{
    if n <= 0 {
        0
    } else {
        capacity_sum(gs, n - 1) + capacity_of(gs[n - 1])
    }
}

/// The largest hart capacity among the first `n` guests (0 for none).
pub open spec fn capacity_max(gs: Seq<GuestProperties>, n: int) -> nat
    decreases n,
{
    if n <= 0 {
        0
    } else if capacity_of(gs[n - 1]) > capacity_max(gs, n - 1) {
        capacity_of(gs[n - 1])
    } else {
        capacity_max(gs, n - 1)
    }
}

/// How many hart assignments the first `n` guests make.
pub open spec fn assignment_count(gs: Seq<GuestProperties>, n: int) -> nat
    decreases n,
{
    if n <= 0 {
        0
    } else {
        assignment_count(gs, n - 1) + assigned_ids(gs[n - 1]).len()
    }
}

/// What is wrong with guest `i`, given the guests before it, checked in the
/// order the tree is read: its entry, its capacity, its path, the running
/// capacity total, its assigned harts and the running count of assignments.
pub open spec fn guest_error(gs: Seq<GuestProperties>, i: int) -> Option<ConfigError> {
    let g = gs[i];
    let ix = i as usize;
    if g.entry is None {
        Some(ConfigError::MissingEntry(ix))
    } else if prop_usize(g.entry) is None {
        Some(ConfigError::EntryNotInteger(ix))
    } else if g.hart_capacity is None {
        Some(ConfigError::MissingHartCapacity(ix))
    } else if prop_usize(g.hart_capacity) is None {
        Some(ConfigError::HartCapacityNotInteger(ix))
    } else if g.path is None {
        Some(ConfigError::MissingPath(ix))
    } else if fdt_text(g.path.unwrap()@) is None {
        Some(ConfigError::PathNotText(ix))
    } else if capacity_sum(gs, i) + capacity_of(g) > usize::MAX {
        Some(ConfigError::CapacityOverflow(ix))
    } else if g.assigned_harts matches Some(v) && v@.len() % 4 != 0 {
        Some(ConfigError::AssignedHartsMisaligned(ix))
    } else if assignment_count(gs, i) + assigned_ids(g).len() > usize::MAX {
        Some(ConfigError::AssignmentCountOverflow(ix))
    } else {
        None
    }
}

/// The first error among the first `n` guests.
pub open spec fn guests_error(gs: Seq<GuestProperties>, n: int) -> Option<ConfigError>
    decreases n,
{
    if n <= 0 {
        None
    } else {
        match guests_error(gs, n - 1) {
            Some(e) => Some(e),
            None => guest_error(gs, n - 1),
        }
    }
}

/// The first hart id at or beyond `total`, scanning guest `g` from its `k`-th
/// assignment on, then the guests after it.
pub open spec fn unknown_hart_from(gs: Seq<GuestProperties>, total: nat, g: int, k: int) -> Option<
    ConfigError,
>
    decreases gs.len() - g, assigned_ids(gs[g]).len() - k,
{
    if g < 0 || g >= gs.len() {
        None
    } else if k < 0 || k >= assigned_ids(gs[g]).len() {
        unknown_hart_from(gs, total, g + 1, 0)
    } else if assigned_ids(gs[g])[k] is Some && assigned_ids(gs[g])[k].unwrap() >= total {
        Some(ConfigError::UnknownHart(g as usize, assigned_ids(gs[g])[k].unwrap()))
    } else {
        unknown_hart_from(gs, total, g, k + 1)
    }
}

/// The error that the configuration read from `vlen` and `gs` ends in, if any:
/// the vector length is read first, then the guests in order, and last the
/// hart ids that guests are pinned to are looked up among the harts.
pub open spec fn config_error(vlen: Option<Vec<u8>>, gs: Seq<GuestProperties>) -> Option<
    ConfigError,
> {
    if vlen is None {
        Some(ConfigError::MissingVlen)
    } else if prop_usize(vlen) is None {
        Some(ConfigError::VlenNotInteger)
    } else if guests_error(gs, gs.len() as int) is Some {
        guests_error(gs, gs.len() as int)
    } else {
        unknown_hart_from(gs, capacity_sum(gs, gs.len() as int), 0, 0)
    }
}

/// `c` is the guest that properties `g` describe.
pub open spec fn guest_config_from(c: GuestConfig, g: GuestProperties) -> bool {
    &&& c.entry_gpa == prop_usize(g.entry).unwrap()
    &&& c.hart_capacity == prop_usize(g.hart_capacity).unwrap()
    &&& fdt_text(g.path.unwrap()@) == Some(c.path@)
    &&& c.assigned_harts@ == assigned_ids(g)
}

/// The entries `Some(g)` that guest `g` adds to hart `h`'s list: one for each
/// of its first `k` assignments that names `h`.
pub open spec fn mentions(ids: Seq<Option<u32>>, h: int, g: int, k: int) -> Seq<Option<usize>>
    decreases k,
{
    if k <= 0 {
        Seq::empty()
    } else if names_id(ids[k - 1], h) {
        mentions(ids, h, g, k - 1).push(Some(g as usize))
    } else {
        mentions(ids, h, g, k - 1)
    }
}

/// Hart `h`'s list of guests, built from the first `n` guests in order.
pub open spec fn hart_listing(gs: Seq<GuestProperties>, h: int, n: int) -> Seq<Option<usize>>
    decreases n,
{
    if n <= 0 {
        Seq::empty()
    } else {
        hart_listing(gs, h, n - 1) + mentions(
            assigned_ids(gs[n - 1]),
            h,
            n - 1,
            assigned_ids(gs[n - 1]).len() as int,
        )
    }
}

/// An assignment entry that names hart `h`.
pub open spec fn names_id(e: Option<u32>, h: int) -> bool {
    e matches Some(id) && id == h
}

/// Guest `x` names hart `h` among its assignments.
pub open spec fn names_hart(gs: Seq<GuestProperties>, x: int, h: int) -> bool {
    exists|k: int|
        0 <= k < assigned_ids(gs[x]).len() && names_id(#[trigger] assigned_ids(gs[x])[k], h)
}

proof fn lemma_seq_concat_contains<A>(a: Seq<A>, b: Seq<A>, e: A)
    ensures
        (a + b).contains(e) <==> a.contains(e) || b.contains(e),
{
    if (a + b).contains(e) {
        let i = choose|i: int| 0 <= i < (a + b).len() && (a + b)[i] == e;
        if i < a.len() {
            assert(a[i] == e);
        } else {
            assert(b[i - a.len()] == e);
        }
    }
    if a.contains(e) {
        let i = choose|i: int| 0 <= i < a.len() && a[i] == e;
        assert((a + b)[i] == e);
    }
    if b.contains(e) {
        let i = choose|i: int| 0 <= i < b.len() && b[i] == e;
        assert((a + b)[a.len() + i] == e);
    }
}

proof fn lemma_mentions_contains(ids: Seq<Option<u32>>, h: int, g: int, k: int, e: Option<usize>)
    requires
        0 <= k <= ids.len(),
    ensures
        mentions(ids, h, g, k).contains(e) <==> e == Some(g as usize) && exists|j: int|
            0 <= j < k && names_id(#[trigger] ids[j], h),
    decreases k,
{
    if k > 0 {
        lemma_mentions_contains(ids, h, g, k - 1, e);
        let prev = mentions(ids, h, g, k - 1);
        if names_id(ids[k - 1], h) {
            assert(mentions(ids, h, g, k) == prev.push(Some(g as usize)));
            assert(prev.push(Some(g as usize))[prev.len() as int] == Some(g as usize));
            if prev.push(Some(g as usize)).contains(e) && e != Some(g as usize) {
                let i = choose|i: int|
                    0 <= i < prev.len() + 1 && #[trigger] prev.push(Some(g as usize))[i] == e;
                assert(prev[i] == e);
            }
            if prev.contains(e) {
                let i = choose|i: int| 0 <= i < prev.len() && prev[i] == e;
                assert(prev.push(Some(g as usize))[i] == e);
            }
        } else {
            if exists|j: int| 0 <= j < k && names_id(#[trigger] ids[j], h) {
                let j = choose|j: int| 0 <= j < k && names_id(#[trigger] ids[j], h);
                assert(j != k - 1);
            }
        }
    }
}

/// A hart lists a guest exactly when that guest names the hart among its
/// assigned harts: hart `h`'s list, built from the first `n` guests, holds
/// `Some(x)` if and only if `x < n` and guest `x` names `h`.
pub proof fn lemma_hart_lists_guest(gs: Seq<GuestProperties>, h: int, n: int, x: usize)
    requires
        0 <= n <= gs.len() <= usize::MAX,
    ensures
        hart_listing(gs, h, n).contains(Some(x)) <==> x < n && names_hart(gs, x as int, h),
    decreases n,
{
    if n > 0 {
        lemma_hart_lists_guest(gs, h, n - 1, x);
        let ids = assigned_ids(gs[n - 1]);
        lemma_seq_concat_contains(
            hart_listing(gs, h, n - 1),
            mentions(ids, h, n - 1, ids.len() as int),
            Some(x),
        );
        lemma_mentions_contains(ids, h, n - 1, ids.len() as int, Some(x));
        if x == n - 1 {
            if names_hart(gs, x as int, h) {
                let k = choose|k: int|
                    0 <= k < assigned_ids(gs[x as int]).len() && names_id(
                        #[trigger] assigned_ids(gs[x as int])[k],
                        h,
                    );
                assert(names_id(ids[k], h));
            }
        }
    }
}

/// Past a scan position that finds no unknown hart, every assignment names a
/// hart below `total`.
proof fn lemma_no_unknown_hart_from(gs: Seq<GuestProperties>, total: nat, g: int, k: int)
    requires
        0 <= g,
        0 <= k,
        unknown_hart_from(gs, total, g, k) is None,
    ensures
        forall|g2: int, k2: int|
            ((g2 == g && k <= k2) || g < g2) && g2 < gs.len() && 0 <= k2 < assigned_ids(gs[g2]).len()
                ==> (#[trigger] assigned_ids(gs[g2])[k2] is Some ==> assigned_ids(gs[g2])[k2]->0 < total),
    decreases gs.len() - g, assigned_ids(gs[g]).len() - k,
{
    if g < gs.len() {
        if k >= assigned_ids(gs[g]).len() {
            lemma_no_unknown_hart_from(gs, total, g + 1, 0);
        } else {
            lemma_no_unknown_hart_from(gs, total, g, k + 1);
        }
    }
}

/// A configuration that is read without error pins guests only to harts
/// that exist: every hart id in an `assigned-harts` list is below the total
/// hart capacity, the number of harts.
pub proof fn lemma_pinned_harts_exist(vlen: Option<Vec<u8>>, gs: Seq<GuestProperties>)
    requires
        config_error(vlen, gs) is None,
    ensures
        forall|g: int, k: int|
            0 <= g < gs.len() && 0 <= k < assigned_ids(gs[g]).len() ==> #[trigger] assigned_ids(gs[g])[k] is Some
                && assigned_ids(gs[g])[k]->0 < capacity_sum(gs, gs.len() as int),
{
    let total = capacity_sum(gs, gs.len() as int);
    lemma_no_unknown_hart_from(gs, total, 0, 0);
    assert forall|g: int, k: int|
        0 <= g < gs.len() && 0 <= k < assigned_ids(gs[g]).len() implies #[trigger] assigned_ids(gs[g])[k] is Some
            && assigned_ids(gs[g])[k]->0 < total by {
        match gs[g].assigned_harts {
            Some(v) => {
                assert(assigned_ids(gs[g])[k] == Some(be_value(v@.subrange(4 * k, 4 * k + 4)) as u32));
            },
            None => {},
        }
    }
}

/// `c` is the configuration that `vlen` and the guest properties `gs` give.
pub open spec fn configuration_from(
    vlen: Option<Vec<u8>>,
    gs: Seq<GuestProperties>,
    c: HypervisorConfiguration,
) -> bool {
    let n = gs.len() as int;
    &&& c.vlen == prop_usize(vlen).unwrap()
    &&& c.guests.len() == gs.len()
    &&& forall|i: int| 0 <= i < n ==> guest_config_from(#[trigger] c.guests@[i], gs[i])
    &&& c.total_hart_capacity == capacity_sum(gs, n)
    &&& c.max_supported_harts_per_guest == capacity_max(gs, n)
    &&& c.max_supported_assigned_harts_per_guest == assignment_count(gs, n)
    &&& c.harts.len() == c.total_hart_capacity
    &&& forall|h: int|
        0 <= h < c.harts.len() ==> (#[trigger] c.harts@[h]).hart_id == h && c.harts@[h].guests@
            == hart_listing(gs, h, n)
}

/// Bytes `s` of length four spell `((s0 * 256 + s1) * 256 + s2) * 256 + s3`.
proof fn lemma_be_value_4(s: Seq<u8>)
    requires
        s.len() == 4,
    ensures
        be_value(s) == ((s[0] as nat * 256 + s[1] as nat) * 256 + s[2] as nat) * 256 + s[3] as nat,
{
    reveal_with_fuel(be_value, 5);
    assert(s.drop_last().drop_last().drop_last().drop_last().len() == 0);
}

/// The hart ids of an `assigned-harts` value, one per whole 4-byte cell.
fn decode_cells(v: &Vec<u8>) -> (r: Vec<Option<u32>>)
    ensures
        r@ == cell_ids(v@),
{
    let n = v.len() / 4;
    let mut out: Vec<Option<u32>> = Vec::new();
    let mut k: usize = 0;
    while k < n
        invariant
            n == v.len() / 4,
            k <= n,
            out@.len() == k,
            forall|j: int| 0 <= j < k ==> out@[j] == cell_ids(v@)[j],
        decreases n - k,
    {
        let id = word_at_exec(v.as_slice(), 4 * k);
        out.push(Some(id));
        k += 1;
    }
    proof {
        assert(out@ =~= cell_ids(v@));
    }
    out
}

/// Once the guests up to `m` have an error, it stays the first error.
proof fn lemma_guests_error_sticks(gs: Seq<GuestProperties>, m: int, n: int)
    requires
        0 <= m <= n,
        guests_error(gs, m) is Some,
    ensures
        guests_error(gs, n) == guests_error(gs, m),
    decreases n - m,
{
    if n > m {
        lemma_guests_error_sticks(gs, m, n - 1);
    }
}

/// Decodes the guests in order, with the running totals; the first error ends it.
fn decode_guests(guests: &Vec<GuestProperties>) -> (r: Result<
    (Vec<GuestConfig>, usize, usize, usize),
    ConfigError,
>)
    ensures
        match r {
            Ok((cs, total, max_cap, count)) => {
                let n = guests@.len() as int;
                &&& guests_error(guests@, n) is None
                &&& cs.len() == n
                &&& forall|j: int| 0 <= j < n ==> guest_config_from(#[trigger] cs@[j], guests@[j])
                &&& total == capacity_sum(guests@, n)
                &&& max_cap == capacity_max(guests@, n)
                &&& count == assignment_count(guests@, n)
            },
            Err(e) => guests_error(guests@, guests@.len() as int) == Some(e),
        },
{
    let ghost gs = guests@;
    let mut configs: Vec<GuestConfig> = Vec::new();
    let mut total: usize = 0;
    let mut max_cap: usize = 0;
    let mut count: usize = 0;
    let mut i: usize = 0;
    while i < guests.len()
        invariant
            gs == guests@,
            i <= gs.len(),
            guests_error(gs, i as int) is None,
            configs.len() == i,
            forall|j: int| 0 <= j < i ==> guest_config_from(#[trigger] configs@[j], gs[j]),
            total == capacity_sum(gs, i as int),
            max_cap == capacity_max(gs, i as int),
            count == assignment_count(gs, i as int),
        decreases gs.len() - i,
    {
        let g = &guests[i];
        let ghost failed = guest_error(gs, i as int);
        proof {
            if failed is Some {
                assert(guests_error(gs, i + 1) == failed);
                lemma_guests_error_sticks(gs, i + 1, gs.len() as int);
            }
        }
        let entry = match &g.entry {
            None => return Err(ConfigError::MissingEntry(i)),
            Some(e) => match property_as_usize(e.as_slice()) {
                None => return Err(ConfigError::EntryNotInteger(i)),
                Some(x) => x,
            },
        };
        let cap = match &g.hart_capacity {
            None => return Err(ConfigError::MissingHartCapacity(i)),
            Some(c) => match property_as_usize(c.as_slice()) {
                None => return Err(ConfigError::HartCapacityNotInteger(i)),
                Some(x) => x,
            },
        };
        let path = match &g.path {
            None => return Err(ConfigError::MissingPath(i)),
            Some(p) => match property_as_str(p.as_slice()) {
                None => return Err(ConfigError::PathNotText(i)),
                Some(text) => text,
            },
        };
        let new_total = match total.checked_add(cap) {
            None => return Err(ConfigError::CapacityOverflow(i)),
            Some(t) => t,
        };
        let ids = match &g.assigned_harts {
            None => Vec::new(),
            Some(v) => {
                if v.len() % 4 != 0 {
                    return Err(ConfigError::AssignedHartsMisaligned(i));
                }
                decode_cells(v)
            },
        };
        let new_count = match count.checked_add(ids.len()) {
            None => return Err(ConfigError::AssignmentCountOverflow(i)),
            Some(c) => c,
        };
        total = new_total;
        if cap > max_cap {
            max_cap = cap;
        }
        count = new_count;
        assert(ids@ == assigned_ids(gs[i as int]));
        configs.push(GuestConfig { entry_gpa: entry, hart_capacity: cap, assigned_harts: ids, path });
        proof {
            assert(guest_error(gs, i as int) is None);
            assert(guests_error(gs, i + 1) is None);
        }
        i += 1;
    }
    Ok((configs, total, max_cap, count))
}

/// The first assignment, in guest order, of a hart id at or beyond `total`.
fn find_unknown_hart(configs: &Vec<GuestConfig>, total: usize, Ghost(gs): Ghost<
    Seq<GuestProperties>,
>) -> (r: Option<ConfigError>)
    requires
        configs.len() == gs.len(),
        forall|j: int|
            0 <= j < gs.len() ==> (#[trigger] configs@[j]).assigned_harts@ == assigned_ids(gs[j]),
    ensures
        r == unknown_hart_from(gs, total as nat, 0, 0),
{
    let mut g: usize = 0;
    while g < configs.len()
        invariant
            configs.len() == gs.len(),
            forall|j: int|
                0 <= j < gs.len() ==> (#[trigger] configs@[j]).assigned_harts@ == assigned_ids(
                    gs[j],
                ),
            g <= configs.len(),
            unknown_hart_from(gs, total as nat, 0, 0) == unknown_hart_from(gs, total as nat, g as int, 0),
        decreases configs.len() - g,
    {
        let ids = &configs[g].assigned_harts;
        assert(ids@ == assigned_ids(gs[g as int]));
        let mut k: usize = 0;
        while k < ids.len()
            invariant
                ids@ == assigned_ids(gs[g as int]),
                g < gs.len(),
                k <= ids.len(),
                unknown_hart_from(gs, total as nat, 0, 0) == unknown_hart_from(
                    gs,
                    total as nat,
                    g as int,
                    k as int,
                ),
            decreases ids.len() - k,
        {
            match ids[k] {
                Some(x) => {
                    if x as usize >= total {
                        return Some(ConfigError::UnknownHart(g, x));
                    }
                },
                None => {},
            }
            k += 1;
        }
        g += 1;
    }
    None
}

/// Hart `h`'s list of guests: `Some(g)` for each assignment of `h` by guest
/// `g`, in guest order.
fn hart_guest_list(configs: &Vec<GuestConfig>, h: usize, Ghost(gs): Ghost<Seq<GuestProperties>>) -> (r:
    Vec<Option<usize>>)
    requires
        configs.len() == gs.len(),
        forall|j: int|
            0 <= j < gs.len() ==> (#[trigger] configs@[j]).assigned_harts@ == assigned_ids(gs[j]),
    ensures
        r@ == hart_listing(gs, h as int, gs.len() as int),
{
    let mut out: Vec<Option<usize>> = Vec::new();
    let mut g: usize = 0;
    while g < configs.len()
        invariant
            configs.len() == gs.len(),
            forall|j: int|
                0 <= j < gs.len() ==> (#[trigger] configs@[j]).assigned_harts@ == assigned_ids(
                    gs[j],
                ),
            g <= configs.len(),
            out@ == hart_listing(gs, h as int, g as int),
        decreases configs.len() - g,
    {
        let ids = &configs[g].assigned_harts;
        assert(ids@ == assigned_ids(gs[g as int]));
        let ghost before = out@;
        let mut k: usize = 0;
        while k < ids.len()
            invariant
                ids@ == assigned_ids(gs[g as int]),
                g < gs.len(),
                k <= ids.len(),
                before == hart_listing(gs, h as int, g as int),
                out@ == before + mentions(ids@, h as int, g as int, k as int),
            decreases ids.len() - k,
        {
            match ids[k] {
                Some(x) => {
                    if x as usize == h {
                        out.push(Some(g));
                    }
                },
                None => {},
            }
            proof {
                assert(out@ =~= before + mentions(ids@, h as int, g as int, k + 1));
            }
            k += 1;
        }
        g += 1;
    }
    out
}

/// Builds the configuration from the vector length property `vlen` and the
/// guests' properties, in the order the tree gives them.
///
/// The vector length is read first, then each guest in turn (its entry,
/// capacity and path, the running capacity total, its assigned harts); last,
/// every hart id a guest is pinned to must be below the total hart capacity.
/// The harts are `0..total_hart_capacity`, and hart `h` lists guest `g` once for
/// each time `g` names `h`.
pub fn assemble_configuration(vlen: &Option<Vec<u8>>, guests: &Vec<GuestProperties>) -> (r: Result<
    HypervisorConfiguration,
    ConfigError,
>)
    ensures
        match r {
            Ok(c) => config_error(*vlen, guests@) is None && configuration_from(*vlen, guests@, c),
            Err(e) => config_error(*vlen, guests@) == Some(e),
        },
        r matches Ok(c) ==> forall|i: int|
            0 <= i < c.guests@.len() ==> #[trigger] c.guests@[i].hart_capacity <= c.max_supported_harts_per_guest,
        r matches Ok(c) ==> (c.guests@.len() == 0 ==> c.max_supported_harts_per_guest == 0),
        r matches Ok(c) ==> c.total_hart_capacity == guests_capacity(c.guests@, c.guests@.len() as int)
            && c.max_supported_assigned_harts_per_guest == guests_assignments(c.guests@, c.guests@.len() as int),
        r matches Ok(c) ==> (c.guests@.len() > 0 ==> exists|i: int|
            0 <= i < c.guests@.len() && c.max_supported_harts_per_guest == #[trigger] c.guests@[i].hart_capacity),
{
    let ghost gs = guests@;
    let vlen_value = match vlen {
        None => return Err(ConfigError::MissingVlen),
        Some(v) => match property_as_usize(v.as_slice()) {
            None => return Err(ConfigError::VlenNotInteger),
            Some(x) => x,
        },
    };
    let (configs, total, max_cap, count) = match decode_guests(guests) {
        Err(e) => return Err(e),
        Ok(decoded) => decoded,
    };
    assert forall|j: int| 0 <= j < gs.len() implies (#[trigger] configs@[j]).assigned_harts@
        == assigned_ids(gs[j]) by {
        assert(guest_config_from(configs@[j], gs[j]));
    }
    match find_unknown_hart(&configs, total, Ghost(gs)) {
        Some(e) => return Err(e),
        None => {},
    }
    let mut harts: Vec<HartConfig> = Vec::new();
    let mut h: usize = 0;
    while h < total
        invariant
            configs.len() == gs.len(),
            forall|j: int|
                0 <= j < gs.len() ==> (#[trigger] configs@[j]).assigned_harts@ == assigned_ids(
                    gs[j],
                ),
            h <= total,
            harts.len() == h,
            forall|j: int|
                0 <= j < h ==> (#[trigger] harts@[j]).hart_id == j && harts@[j].guests@
                    == hart_listing(gs, j, gs.len() as int),
        decreases total - h,
    {
        let list = hart_guest_list(&configs, h, Ghost(gs));
        harts.push(HartConfig { hart_id: h, guests: list });
        h += 1;
    }
    let c = HypervisorConfiguration {
        guests: configs,
        harts,
        total_hart_capacity: total,
        max_supported_harts_per_guest: max_cap,
        max_supported_assigned_harts_per_guest: count,
        vlen: vlen_value,
    };
    proof {
        lemma_max_harts_per_guest(*vlen, gs, c);
        lemma_configuration_totals(*vlen, gs, c);
    }
    Ok(c)
}

/// The largest capacity is at least that of each guest, and is that of one
/// of them when there is one.
proof fn lemma_capacity_max_bounds(gs: Seq<GuestProperties>, n: int)
    requires
        0 <= n <= gs.len(),
    ensures
        forall|i: int| 0 <= i < n ==> #[trigger] capacity_of(gs[i]) <= capacity_max(gs, n),
        n == 0 ==> capacity_max(gs, n) == 0,
        n > 0 ==> exists|i: int| 0 <= i < n && capacity_max(gs, n) == #[trigger] capacity_of(gs[i]),
    decreases n,
{
    if n > 0 {
        lemma_capacity_max_bounds(gs, n - 1);
        if n - 1 > 0 {
            let j = choose|i: int| 0 <= i < n - 1 && capacity_max(gs, n - 1) == #[trigger] capacity_of(gs[i]);
            assert(capacity_of(gs[j]) == capacity_max(gs, n - 1));
        }
        assert(capacity_of(gs[n - 1]) <= capacity_max(gs, n));
    }
}

/// The configuration's largest hart capacity per guest is the largest of the
/// guests' hart capacities: no guest has more, one guest has that many, and
/// it is 0 without guests.
pub proof fn lemma_max_harts_per_guest(vlen: Option<Vec<u8>>, gs: Seq<GuestProperties>, c: HypervisorConfiguration)
    requires
        configuration_from(vlen, gs, c),
    ensures
        forall|i: int| 0 <= i < c.guests@.len() ==> #[trigger] c.guests@[i].hart_capacity <= c.max_supported_harts_per_guest,
        c.guests@.len() == 0 ==> c.max_supported_harts_per_guest == 0,
        c.guests@.len() > 0 ==> exists|i: int|
            0 <= i < c.guests@.len() && c.max_supported_harts_per_guest == #[trigger] c.guests@[i].hart_capacity,
{
    let n = gs.len() as int;
    lemma_capacity_max_bounds(gs, n);
    assert forall|i: int| 0 <= i < c.guests@.len() implies #[trigger] c.guests@[i].hart_capacity <= c.max_supported_harts_per_guest by {
        assert(guest_config_from(c.guests@[i], gs[i]));
        assert(capacity_of(gs[i]) <= capacity_max(gs, n));
    }
    if n > 0 {
        let j = choose|i: int| 0 <= i < n && capacity_max(gs, n) == #[trigger] capacity_of(gs[i]);
        assert(guest_config_from(c.guests@[j], gs[j]));
        assert(c.max_supported_harts_per_guest == c.guests@[j].hart_capacity);
    }
}

/// The hart capacities of the first `n` guests of a configuration, added up.
pub open spec fn guests_capacity(cs: Seq<GuestConfig>, n: int) -> int
    decreases n,
{
    if n <= 0 {
        0
    } else {
        guests_capacity(cs, n - 1) + cs[n - 1].hart_capacity
    }
}

/// The hart assignments of the first `n` guests of a configuration, counted.
pub open spec fn guests_assignments(cs: Seq<GuestConfig>, n: int) -> int
    decreases n,
{
    if n <= 0 {
        0
    } else {
        guests_assignments(cs, n - 1) + cs[n - 1].assigned_harts@.len()
    }
}

proof fn lemma_sums_match(gs: Seq<GuestProperties>, cs: Seq<GuestConfig>, n: int)
    requires
        0 <= n <= gs.len(),
        cs.len() == gs.len(),
        forall|i: int| 0 <= i < gs.len() ==> guest_config_from(#[trigger] cs[i], gs[i]),
    ensures
        guests_capacity(cs, n) == capacity_sum(gs, n),
        guests_assignments(cs, n) == assignment_count(gs, n),
    decreases n,
{
    if n > 0 {
        lemma_sums_match(gs, cs, n - 1);
        assert(guest_config_from(cs[n - 1], gs[n - 1]));
    }
}

/// The configuration's totals are those of its guests: the total hart
/// capacity is the sum of the guests' hart capacities, there is one hart for
/// each unit of it, and the count of assignments is the number of harts the
/// guests are pinned to, all together.
pub proof fn lemma_configuration_totals(vlen: Option<Vec<u8>>, gs: Seq<GuestProperties>, c: HypervisorConfiguration)
    requires
        configuration_from(vlen, gs, c),
    ensures
        c.total_hart_capacity == guests_capacity(c.guests@, c.guests@.len() as int),
        c.harts@.len() == c.total_hart_capacity,
        c.max_supported_assigned_harts_per_guest == guests_assignments(c.guests@, c.guests@.len() as int),
{
    lemma_sums_match(gs, c.guests@, gs.len() as int);
}

/// The guests' errors are all about a guest.
proof fn lemma_guests_error_kind(gs: Seq<GuestProperties>, n: int)
    ensures
        guests_error(gs, n) != Some(ConfigError::InvalidBlob),
        guests_error(gs, n) != Some(ConfigError::MissingHypervisorConfig),
    decreases n,
{
    if n > 0 {
        lemma_guests_error_kind(gs, n - 1);
    }
}

/// The hart scan only reports unknown harts.
proof fn lemma_unknown_hart_kind(gs: Seq<GuestProperties>, total: nat, g: int, k: int)
    ensures
        unknown_hart_from(gs, total, g, k) is None || unknown_hart_from(gs, total, g, k) matches Some(
            ConfigError::UnknownHart(_, _),
        ),
    decreases gs.len() - g, assigned_ids(gs[g]).len() - k,
{
    if g < 0 || g >= gs.len() {
    } else if k < 0 || k >= assigned_ids(gs[g]).len() {
        lemma_unknown_hart_kind(gs, total, g + 1, 0);
    } else if assigned_ids(gs[g])[k] is Some && assigned_ids(gs[g])[k].unwrap() >= total {
    } else {
        lemma_unknown_hart_kind(gs, total, g, k + 1);
    }
}

/// The errors of the configuration are never about the blob or its
/// hypervisor node.
proof fn lemma_config_error_kind(vlen: Option<Vec<u8>>, gs: Seq<GuestProperties>)
    ensures
        config_error(vlen, gs) != Some(ConfigError::InvalidBlob),
        config_error(vlen, gs) != Some(ConfigError::MissingHypervisorConfig),
{
    lemma_guests_error_kind(gs, gs.len() as int);
    lemma_unknown_hart_kind(gs, capacity_sum(gs, gs.len() as int), 0, 0);
}

/// The outcome `r` of building the configuration from `vlen` and `gs`.
pub open spec fn assembled(
    vlen: Option<Vec<u8>>,
    gs: Seq<GuestProperties>,
    r: Result<HypervisorConfiguration, ConfigError>,
) -> bool {
    match r {
        Ok(c) => config_error(vlen, gs) is None && configuration_from(vlen, gs, c),
        Err(e) => config_error(vlen, gs) == Some(e),
    }
}

/// Reads the big-endian `u32` at `at` of `s`.
fn word_at_exec(s: &[u8], at: usize) -> (r: u32)
    requires
        at + 4 <= s@.len(),
    ensures
        r == word_at(s@, at as int),
{
    let b0 = s[at] as u32;
    let b1 = s[at + 1] as u32;
    let b2 = s[at + 2] as u32;
    let b3 = s[at + 3] as u32;
    proof {
        lemma_be_value_4(s@.subrange(at as int, at + 4));
    }
    ((b0 * 256 + b1) * 256 + b2) * 256 + b3
}

/// The end of a text lies at or after its start, inside the sequence.
proof fn lemma_text_end_bounds(s: Seq<u8>, p: int)
    requires
        text_end(s, p) is Some,
    ensures
        p <= text_end(s, p)->0 < s.len(),
    decreases s.len() - p,
{
    if 0 <= p < s.len() && s[p] != 0 && s[p] < 0x80 {
        lemma_text_end_bounds(s, p + 1);
    }
}

/// Finds the NUL that ends the ASCII text at `p` of `s`.
fn text_end_exec(s: &[u8], p: usize) -> (r: Option<usize>)
    ensures
        r is Some <==> text_end(s@, p as int) is Some,
        r matches Some(q) ==> text_end(s@, p as int) == Some(q as int),
{
    let mut i = p;
    while i < s.len()
        invariant
            p <= i,
            text_end(s@, p as int) == text_end(s@, i as int),
        decreases s@.len() - i,
    {
        if s[i] == 0 {
            return Some(i);
        }
        if s[i] >= 0x80 {
            return None;
        }
        i = i + 1;
    }
    None
}

/// Finds where the properties at `p` of the structure block `s` end.
fn props_end_exec(s: &[u8], t: &[u8], p: usize) -> (r: Option<usize>)
    ensures
        r is Some <==> props_end(s@, t@, p as int) is Some,
        r matches Some(q) ==> props_end(s@, t@, p as int) == Some(q as int),
{
    let mut i = p;
    while i <= s.len() && s.len() - i >= 4 && word_at_exec(s, i) == 3
        invariant
            props_end(s@, t@, p as int) == props_end(s@, t@, i as int),
        decreases s@.len() - i,
    {
        if s.len() - i < 12 {
            return None;
        }
        let n = word_at_exec(s, i + 4) as usize;
        let off = word_at_exec(s, i + 8) as usize;
        if n > s.len() - i - 12 {
            return None;
        }
        let padded = (n + 3) / 4 * 4;
        if padded > s.len() - i - 12 {
            return None;
        }
        match text_end_exec(t, off) {
            None => {
                return None;
            },
            Some(_) => {},
        }
        if t[off] == 0x2f {
            return None;
        }
        i = i + 12 + padded;
    }
    Some(i)
}

/// Finds where the node at `p` of the structure block `s` ends.
fn node_end_exec(s: &[u8], t: &[u8], p: usize) -> (r: Option<usize>)
    ensures
        r is Some <==> node_end(s@, t@, p as int) is Some,
        r matches Some(q) ==> node_end(s@, t@, p as int) == Some(q as int),
    decreases s@.len() - p, 0int,
{
    if p > s.len() || s.len() - p < 4 || word_at_exec(s, p) != 1 {
        return None;
    }
    let q = match text_end_exec(s, p + 4) {
        None => {
            return None;
        },
        Some(q) => q,
    };
    proof {
        lemma_text_end_bounds(s@, p + 4);
    }
    let name_len = q - (p + 4) + 1;
    if name_len > s.len() {
        return None;
    }
    let padded = (name_len + 3) / 4 * 4;
    if padded > s.len() - (p + 4) {
        return None;
    }
    let after = p + 4 + padded;
    let c = match props_end_exec(s, t, after) {
        None => {
            return None;
        },
        Some(c) => c,
    };
    if c <= p || c > s.len() {
        return None;
    }
    let d = match children_end_exec(s, t, c) {
        None => {
            return None;
        },
        Some(d) => d,
    };
    if d > s.len() || s.len() - d < 4 || word_at_exec(s, d) != 2 {
        return None;
    }
    Some(d + 4)
}

/// Finds where the child nodes at `c` of the structure block `s` end.
fn children_end_exec(s: &[u8], t: &[u8], c: usize) -> (r: Option<usize>)
    ensures
        r is Some <==> children_end(s@, t@, c as int) is Some,
        r matches Some(q) ==> children_end(s@, t@, c as int) == Some(q as int),
    decreases s@.len() - c, 1int,
{
    if c > s.len() || s.len() - c < 4 || word_at_exec(s, c) != 1 {
        return Some(c);
    }
    let e = match node_end_exec(s, t, c) {
        None => {
            return None;
        },
        Some(e) => e,
    };
    if e <= c || e > s.len() {
        return None;
    }
    children_end_exec(s, t, e)
}

/// Whether a blob is in the form [`fdt_structure_ok`] describes.
pub fn structure_ok(blob: &[u8]) -> (r: bool)
    ensures
        r == fdt_structure_ok(blob@),
{
    if blob.len() < 40 || word_at_exec(blob, 0) != 0xd00d_feed || word_at_exec(blob, 4) as usize
        > blob.len() {
        return false;
    }
    let off_s = word_at_exec(blob, 8) as usize;
    let size_s = word_at_exec(blob, 36) as usize;
    let off_t = word_at_exec(blob, 12) as usize;
    let size_t = word_at_exec(blob, 32) as usize;
    if off_s > blob.len() || size_s > blob.len() - off_s || off_t > blob.len() || size_t
        > blob.len() - off_t {
        return false;
    }
    let s = vstd::slice::slice_subrange(blob, off_s, off_s + size_s);
    let t = vstd::slice::slice_subrange(blob, off_t, off_t + size_t);
    assert(s@ == structure_block(blob@));
    assert(t@ == strings_block(blob@));
    node_end_exec(s, t, 0).is_some()
}

/// Reads the hypervisor configuration from a device tree blob.
///
/// A blob not in the form [`fdt_structure_ok`] describes is refused; from
/// one that is, the `fdt` crate reads the properties of `/hypervisor-config`
/// and of its children ([`config_values`]), and the configuration is what
/// [`assemble_configuration`] builds from them.
pub fn parse_dts(dtb: &[u8]) -> (r: Result<HypervisorConfiguration, ConfigError>)
    ensures
        r == Err::<HypervisorConfiguration, ConfigError>(ConfigError::InvalidBlob) <==> !fdt_structure_ok(
            dtb@,
        ),
        fdt_structure_ok(dtb@) && config_values(dtb@) is None ==> r == Err::<
            HypervisorConfiguration,
            ConfigError,
        >(ConfigError::MissingHypervisorConfig),
        fdt_structure_ok(dtb@) && config_values(dtb@) is Some ==> exists|
            vlen: Option<Vec<u8>>,
            gs: Vec<GuestProperties>,
        |
            config_view(vlen, gs) == config_of_values(config_values(dtb@)) && #[trigger] assembled(vlen, gs@, r),
{
    if !structure_ok(dtb) {
        return Err(ConfigError::InvalidBlob);
    }
    let path = "/hypervisor-config";
    let names = vec!["vlen-size"];
    let child_names = vec!["entry", "hart-capacity", "path", "assigned-harts"];
    proof {
        reveal_strlit("/hypervisor-config");
        assert(path@ == config_path());
        assert(names_view(names@) =~= config_names());
        assert(names_view(child_names@) =~= guest_names());
    }
    let values = node_property_values(dtb, path, &names, &child_names);
    match values {
        None => Err(ConfigError::MissingHypervisorConfig),
        Some((v, cs)) => {
            let ghost cs0 = cs@;
            let mut v = v;
            let vlen = v.pop().unwrap();
            let mut cs = cs;
            let mut guests: Vec<GuestProperties> = Vec::new();
            let ghost n = cs0.len();
            while cs.len() > 0
                invariant
                    cs@ == cs0.subrange(guests@.len() as int, n as int),
                    guests@.len() <= n,
                    n == cs0.len(),
                    forall|i: int| 0 <= i < n ==> #[trigger] cs0[i]@.len() == 4,
                    forall|i: int| 0 <= i < guests@.len() ==> #[trigger] guest_view(guests@[i]) == guest_tuple(values_view(cs0[i])),
                decreases cs@.len(),
            {
                let c = cs.remove(0);
                proof {
                    assert(c == cs0[guests@.len() as int]);
                }
                let g = guest_properties_of(c);
                guests.push(g);
            }
            let r = assemble_configuration(&vlen, &guests);
            proof {
                assert(guests@.len() == n);
                assert(assembled(vlen, guests@, r));
                assert(guests@.map_values(|g: GuestProperties| guest_view(g)) =~= values_view_list(cs0).map_values(
                    |c: Seq<Option<Seq<u8>>>| guest_tuple(c),
                ));
                assert(config_view(vlen, guests) == config_of_values(config_values(dtb@)));
                lemma_config_error_kind(vlen, guests@);
            }
            r
        },
    }
}

/// The property values of each of a list of value lists.
pub open spec fn values_view_list(cs: Seq<Vec<Option<Vec<u8>>>>) -> Seq<Seq<Option<Seq<u8>>>> {
    cs.map_values(|c: Vec<Option<Vec<u8>>>| values_view(c))
}

} // verus!
