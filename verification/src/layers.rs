//! The layer and line-type tables: what an entity inherits from its layer
//! (`ByLayer`) or from the insert that places it (`ByBlock`), and which line
//! type its dashes come from.

use vstd::prelude::*;
use crate::paper::{normalized_name, normalize_name, table_keys, first_key_match, keys_view, key_from, lemma_key_from};
use crate::props::{ColorValue, LineWeightValue};
use crate::ownership::{BlockRecordRec, spec_block_map, spec_belongs, belongs_to_visible_block};
use std::collections::HashMap;
use crate::selection::{eq_ignore_case, eq_ignore_ascii_case};

verus! {

/// A layer: its handle, name, line type, color, line weight, and whether it
/// is off, frozen or locked.
pub struct LayerInfo {
    pub handle: u64,
    pub name: String,
    pub line_type: String,
    pub color: ColorValue,
    pub line_weight: LineWeightValue,
    pub off: bool,
    pub frozen: bool,
    pub locked: bool,
}

/// What a layer is, as its parts' values.
pub struct LayerView {
    pub handle: u64,
    pub name: Seq<char>,
    pub line_type: Seq<char>,
    pub color: ColorValue,
    pub line_weight: LineWeightValue,
    pub off: bool,
    pub frozen: bool,
    pub locked: bool,
}

pub open spec fn layer_view(l: LayerInfo) -> LayerView {
    LayerView {
        handle: l.handle,
        name: l.name@,
        line_type: l.line_type@,
        color: l.color,
        line_weight: l.line_weight,
        off: l.off,
        frozen: l.frozen,
        locked: l.locked,
    }
}

pub open spec fn layers_view(ls: Seq<LayerInfo>) -> Seq<LayerView> {
    ls.map_values(|l: LayerInfo| layer_view(l))
}

/// Position of the first layer at or after `i` whose name the table matches
/// with `name`, or -1.
pub open spec fn layer_from(ls: Seq<LayerInfo>, name: Seq<char>, i: int) -> int
    decreases ls.len() - i,
{
    if i < 0 || i >= ls.len() {
        -1
    } else if normalized_name(ls[i].name@) == normalized_name(name) {
        i
    } else {
        layer_from(ls, name, i + 1)
    }
}

/// Position of the layer `name` as the layer table looks names up, or -1.
pub open spec fn layer_pos(ls: Seq<LayerInfo>, name: Seq<char>) -> int {
    layer_from(ls, name, 0)
}

/// Position of the layer `name` in `layers`, as the table looks it up.
pub fn find_layer(layers: &Vec<LayerInfo>, name: &str) -> (r: Option<usize>)
    ensures
        r is Some <==> layer_pos(layers@, name@) >= 0,
        r is Some ==> r->0 == layer_pos(layers@, name@) && r->0 < layers@.len(),
{
    let mut names: Vec<&str> = Vec::new();
    let mut i: usize = 0;
    while i < layers.len()
        invariant
            i <= layers@.len(),
            names@.len() == i,
            forall|j: int| 0 <= j < i ==> #[trigger] names@[j]@ == layers@[j].name@,
        decreases layers@.len() - i,
    {
        names.push(layers[i].name.as_str());
        i = i + 1;
    }
    let keys = table_keys(&names);
    let key = normalize_name(name);
    proof {
        assert forall|j: int| 0 <= j < layers@.len() implies #[trigger] keys_view(keys@)[j] == normalized_name(
            layers@[j].name@,
        ) by {
            assert(names@[j]@ == layers@[j].name@);
        }
        lemma_layer_keys(layers@, keys_view(keys@), name@, 0);
        lemma_key_from(keys_view(keys@), key@, 0);
    }
    first_key_match(&keys, &key)
}

proof fn lemma_layer_keys(ls: Seq<LayerInfo>, kv: Seq<Seq<char>>, name: Seq<char>, i: int)
    requires
        kv.len() == ls.len(),
        forall|j: int| 0 <= j < ls.len() ==> #[trigger] kv[j] == normalized_name(ls[j].name@),
    ensures
        key_from(kv, normalized_name(name), i) == layer_from(ls, name, i),
    decreases ls.len() - i,
{
    if 0 <= i < ls.len() {
        lemma_layer_keys(ls, kv, name, i + 1);
    }
}

pub open spec fn continuous() -> Seq<char> {
    seq!['C', 'o', 'n', 't', 'i', 'n', 'u', 'o', 'u', 's']
}

pub open spec fn by_layer_word() -> Seq<char> {
    seq!['b', 'y', 'l', 'a', 'y', 'e', 'r']
}

/// The line type an entity draws with: its own, unless that is empty or
/// `ByLayer` (any case), when it is its layer's, or `Continuous` for a layer
/// the table lacks.
pub open spec fn spec_linetype_name(entity_lt: Seq<char>, layer: Seq<char>, ls: Seq<LayerInfo>) -> Seq<
    char,
> {
    if entity_lt.len() == 0 || eq_ignore_case(entity_lt, by_layer_word()) {
        let p = layer_pos(ls, layer);
        if p >= 0 {
            ls[p].line_type@
        } else {
            continuous()
        }
    } else {
        entity_lt
    }
}

/// The effective line type name of an entity with line type `entity_linetype`
/// on layer `layer`.
pub fn linetype_name_for(entity_linetype: &str, layer: &str, layers: &Vec<LayerInfo>) -> (r: String)
    ensures
        r@ == spec_linetype_name(entity_linetype@, layer@, layers@),
{
    proof {
        reveal_strlit("bylayer");
        reveal_strlit("Continuous");
        assert("bylayer"@ =~= by_layer_word());
        assert("Continuous"@ =~= continuous());
    }
    if entity_linetype.unicode_len() == 0 || eq_ignore_ascii_case(entity_linetype, "bylayer") {
        match find_layer(layers, layer) {
            Some(i) => layers[i].line_type.clone(),
            None => String::from_str("Continuous"),
        }
    } else {
        String::from_str(entity_linetype)
    }
}

/// The color of layer `layer`, white (index 7) for a layer the table lacks.
pub open spec fn spec_layer_color(layer: Seq<char>, ls: Seq<LayerInfo>) -> ColorValue {
    let p = layer_pos(ls, layer);
    if p >= 0 {
        ls[p].color
    } else {
        ColorValue::Index(7)
    }
}

/// The color of layer `layer`.
pub fn layer_color(layer: &str, layers: &Vec<LayerInfo>) -> (c: ColorValue)
    ensures
        c == spec_layer_color(layer@, layers@),
{
    match find_layer(layers, layer) {
        Some(i) => layers[i].color,
        None => ColorValue::Index(7),
    }
}

/// Layers after switching layer `name` on or off (no change for a layer the
/// table lacks).
pub open spec fn spec_toggle_off(ls: Seq<LayerInfo>, name: Seq<char>) -> Seq<LayerView> {
    let p = layer_pos(ls, name);
    if p >= 0 {
        layers_view(ls).update(p, LayerView { off: !ls[p].off, ..layer_view(ls[p]) })
    } else {
        layers_view(ls)
    }
}

/// Layers after locking or unlocking layer `name`.
pub open spec fn spec_toggle_locked(ls: Seq<LayerInfo>, name: Seq<char>) -> Seq<LayerView> {
    let p = layer_pos(ls, name);
    if p >= 0 {
        layers_view(ls).update(p, LayerView { locked: !ls[p].locked, ..layer_view(ls[p]) })
    } else {
        layers_view(ls)
    }
}

/// Switches layer `name` off when on, on when off.
pub fn toggle_layer_visibility(layers: &mut Vec<LayerInfo>, name: &str)
    ensures
        layers_view(final(layers)@) == spec_toggle_off(old(layers)@, name@),
{
    let ghost l0 = layers@;
    match find_layer(layers, name) {
        Some(i) => {
            let v = !layers[i].off;
            layers[i].off = v;
            assert(layers_view(layers@) =~= spec_toggle_off(l0, name@));
        },
        None => {},
    }
}

/// Locks layer `name` when unlocked, unlocks it when locked.
pub fn toggle_layer_lock(layers: &mut Vec<LayerInfo>, name: &str)
    ensures
        layers_view(final(layers)@) == spec_toggle_locked(old(layers)@, name@),
{
    let ghost l0 = layers@;
    match find_layer(layers, name) {
        Some(i) => {
            let v = !layers[i].locked;
            layers[i].locked = v;
            assert(layers_view(layers@) =~= spec_toggle_locked(l0, name@));
        },
        None => {},
    }
}

proof fn lemma_layer_from_names(a: Seq<LayerInfo>, b: Seq<LayerInfo>, name: Seq<char>, i: int)
    requires
        a.len() == b.len(),
        forall|j: int| 0 <= j < a.len() ==> #[trigger] a[j].name@ == b[j].name@,
    ensures
        layer_from(a, name, i) == layer_from(b, name, i),
    decreases a.len() - i,
{
    if 0 <= i < a.len() {
        lemma_layer_from_names(a, b, name, i + 1);
    }
}

proof fn lemma_layer_from_bounds(ls: Seq<LayerInfo>, name: Seq<char>, i: int)
    ensures
        -1 <= layer_from(ls, name, i) < ls.len(),
    decreases ls.len() - i,
{
    if 0 <= i < ls.len() {
        lemma_layer_from_bounds(ls, name, i + 1);
    }
}

/// Switching a layer off and on again (or on and off) leaves the layers as
/// they were.
pub proof fn law_toggle_visibility_twice(before: Seq<LayerInfo>, mid: Seq<LayerInfo>, name: Seq<char>)
    requires
        layers_view(mid) == spec_toggle_off(before, name),
    ensures
        spec_toggle_off(mid, name) == layers_view(before),
{
    let p = layer_pos(before, name);
    lemma_layer_from_bounds(before, name, 0);
    assert(layers_view(mid).len() == mid.len());
    assert(layers_view(before).len() == before.len());
    assert forall|j: int| 0 <= j < before.len() implies #[trigger] before[j].name@ == mid[j].name@ by {
        assert(layers_view(mid)[j] == layer_view(mid[j]));
        assert(layers_view(before)[j] == layer_view(before[j]));
    }
    lemma_layer_from_names(before, mid, name, 0);
    if p >= 0 {
        assert(layers_view(mid)[p] == layer_view(mid[p]));
        assert(layers_view(mid).update(p, LayerView { off: !mid[p].off, ..layer_view(mid[p]) })
            =~= layers_view(before));
    }
}

/// The color an entity with color `c` on layer `layer` draws with: its
/// layer's for `ByLayer`, its own otherwise.
pub open spec fn spec_resolved_color(c: ColorValue, layer: Seq<char>, ls: Seq<LayerInfo>) -> ColorValue {
    if c == ColorValue::ByLayer {
        spec_layer_color(layer, ls)
    } else {
        c
    }
}

/// The color an entity draws with.
pub fn resolved_color(c: ColorValue, layer: &str, layers: &Vec<LayerInfo>) -> (r: ColorValue)
    ensures
        r == spec_resolved_color(c, layer@, layers@),
{
    match c {
        ColorValue::ByLayer => layer_color(layer, layers),
        _ => c,
    }
}

/// The color index of a color, 0 for one given otherwise.
pub open spec fn spec_aci(c: ColorValue) -> u8 {
    match c {
        ColorValue::Index(i) => i,
        _ => 0,
    }
}

pub fn aci_of(c: ColorValue) -> (i: u8)
    ensures
        i == spec_aci(c),
{
    match c {
        ColorValue::Index(i) => i,
        _ => 0,
    }
}

/// The line weight an entity with weight `w` on layer `layer` draws with: for
/// `ByLayer`, `ByBlock` or `Default` its layer's (`Default` for a layer the
/// table lacks), its own otherwise.
pub open spec fn spec_resolved_lineweight(w: LineWeightValue, layer: Seq<char>, ls: Seq<LayerInfo>) -> LineWeightValue {
    match w {
        LineWeightValue::Value(_) => w,
        _ => {
            let p = layer_pos(ls, layer);
            if p >= 0 {
                ls[p].line_weight
            } else {
                LineWeightValue::Default
            }
        },
    }
}

/// The line weight an entity draws with.
pub fn resolved_lineweight(w: LineWeightValue, layer: &str, layers: &Vec<LayerInfo>) -> (r: LineWeightValue)
    ensures
        r == spec_resolved_lineweight(w, layer@, layers@),
{
    match w {
        LineWeightValue::Value(_) => w,
        _ => match find_layer(layers, layer) {
            Some(i) => layers[i].line_weight,
            None => LineWeightValue::Default,
        },
    }
}

/// Which parts of its style a block's sub-entity takes from the insert that
/// places it: those it gives as `ByBlock`.
#[derive(Clone, Copy, Debug, PartialEq, Eq)]
pub struct ByBlockInherit {
    pub color: bool,
    pub pattern: bool,
    pub weight: bool,
}

pub open spec fn by_block_word() -> Seq<char> {
    seq!['b', 'y', 'b', 'l', 'o', 'c', 'k']
}

/// What a sub-entity with color `c`, line type `lt` and weight `w` inherits
/// from its insert.
pub fn by_block_inherit(c: ColorValue, lt: &str, w: LineWeightValue) -> (r: ByBlockInherit)
    ensures
        r.color == (c == ColorValue::ByBlock),
        r.pattern == eq_ignore_case(lt@, by_block_word()),
        r.weight == (w == LineWeightValue::ByBlock),
{
    proof {
        reveal_strlit("byblock");
        assert("byblock"@ =~= by_block_word());
    }
    ByBlockInherit {
        color: match c {
            ColorValue::ByBlock => true,
            _ => false,
        },
        pattern: eq_ignore_ascii_case(lt, "byblock"),
        weight: match w {
            LineWeightValue::ByBlock => true,
            _ => false,
        },
    }
}

/// A line type of the drawing: its name and how many dash elements it has.
pub struct LinetypeInfo {
    pub name: String,
    pub n_elements: usize,
}

/// Position of the first line type at or after `i` whose name the table
/// matches with `name`, or -1.
pub open spec fn linetype_from(ts: Seq<LinetypeInfo>, name: Seq<char>, i: int) -> int
    decreases ts.len() - i,
{
    if i < 0 || i >= ts.len() {
        -1
    } else if normalized_name(ts[i].name@) == normalized_name(name) {
        i
    } else {
        linetype_from(ts, name, i + 1)
    }
}

pub open spec fn continuous_word() -> Seq<char> {
    seq!['c', 'o', 'n', 't', 'i', 'n', 'u', 'o', 'u', 's']
}

/// The line type whose dashes an entity with line type `name` draws with;
/// none (a solid line) for `Continuous`, `ByLayer`, `ByBlock` (any case), an
/// empty name, a name the table lacks, or a line type without elements.
pub open spec fn spec_pattern_source(name: Seq<char>, ts: Seq<LinetypeInfo>) -> Option<int> {
    let p = linetype_from(ts, name, 0);
    if eq_ignore_case(name, continuous_word()) || eq_ignore_case(name, by_layer_word())
        || eq_ignore_case(name, by_block_word()) || name.len() == 0 || p < 0 || ts[p].n_elements == 0 {
        None
    } else {
        Some(p)
    }
}

/// Position of the line type an entity with line type `name` draws dashes
/// from, if any.
pub fn pattern_source(name: &str, linetypes: &Vec<LinetypeInfo>) -> (r: Option<usize>)
    ensures
        match r {
            Some(i) => spec_pattern_source(name@, linetypes@) == Some(i as int),
            None => spec_pattern_source(name@, linetypes@) is None,
        },
{
    proof {
        reveal_strlit("continuous");
        reveal_strlit("bylayer");
        reveal_strlit("byblock");
        assert("continuous"@ =~= continuous_word());
        assert("bylayer"@ =~= by_layer_word());
        assert("byblock"@ =~= by_block_word());
    }
    if eq_ignore_ascii_case(name, "continuous") || eq_ignore_ascii_case(name, "bylayer")
        || eq_ignore_ascii_case(name, "byblock") || name.unicode_len() == 0 {
        return None;
    }
    let mut names: Vec<&str> = Vec::new();
    let mut i: usize = 0;
    while i < linetypes.len()
        invariant
            i <= linetypes@.len(),
            names@.len() == i,
            forall|j: int| 0 <= j < i ==> #[trigger] names@[j]@ == linetypes@[j].name@,
        decreases linetypes@.len() - i,
    {
        names.push(linetypes[i].name.as_str());
        i = i + 1;
    }
    let keys = table_keys(&names);
    let key = normalize_name(name);
    proof {
        assert forall|j: int| 0 <= j < linetypes@.len() implies #[trigger] keys_view(keys@)[j] == normalized_name(
            linetypes@[j].name@,
        ) by {
            assert(names@[j]@ == linetypes@[j].name@);
        }
        lemma_linetype_keys(linetypes@, keys_view(keys@), name@, 0);
        lemma_key_from(keys_view(keys@), key@, 0);
    }
    match first_key_match(&keys, &key) {
        Some(i) => {
            if linetypes[i].n_elements == 0 {
                None
            } else {
                Some(i)
            }
        },
        None => None,
    }
}

proof fn lemma_linetype_keys(ts: Seq<LinetypeInfo>, kv: Seq<Seq<char>>, name: Seq<char>, i: int)
    requires
        kv.len() == ts.len(),
        forall|j: int| 0 <= j < ts.len() ==> #[trigger] kv[j] == normalized_name(ts[j].name@),
    ensures
        key_from(kv, normalized_name(name), i) == linetype_from(ts, name, i),
    decreases ts.len() - i,
{
    if 0 <= i < ts.len() {
        lemma_linetype_keys(ts, kv, name, i + 1);
    }
}

/// An entity as the drawing pass tests it for visibility.
pub struct DrawnEntity {
    pub handle: u64,
    /// Block record that owns it.
    pub owner: u64,
    pub layer: String,
    /// Marked invisible.
    pub invisible: bool,
    /// A block-definition start or end marker, which has no geometry.
    pub block_marker: bool,
}

/// Layer `layer` is off or frozen (a layer the table lacks is neither).
pub open spec fn layer_hidden(ls: Seq<LayerInfo>, layer: Seq<char>) -> bool {
    let p = layer_pos(ls, layer);
    p >= 0 && (ls[p].off || ls[p].frozen)
}

/// Layer `layer` is among the layers frozen in the viewport being drawn.
pub open spec fn frozen_here(ls: Seq<LayerInfo>, layer: Seq<char>, frozen: Option<Seq<u64>>) -> bool {
    let p = layer_pos(ls, layer);
    match frozen {
        Some(f) => f.len() > 0 && p >= 0 && f.contains(ls[p].handle),
        None => false,
    }
}

/// Entity `e` is drawn when block `block` is drawn, in a viewport freezing
/// the layers `frozen` (none: no viewport): it is not invisible, not a block
/// marker, its layer is neither off, frozen, nor frozen in that viewport, and
/// it belongs to the block.
pub open spec fn spec_entity_visible(
    e: DrawnEntity,
    ls: Seq<LayerInfo>,
    frozen: Option<Seq<u64>>,
    brs: Seq<BlockRecordRec>,
    block: u64,
) -> bool {
    &&& !e.invisible
    &&& !e.block_marker
    &&& !layer_hidden(ls, e.layer@)
    &&& !frozen_here(ls, e.layer@, frozen)
    &&& spec_belongs(brs, e.handle, e.owner, block)
}

fn holds_handle(v: &Vec<u64>, h: u64) -> (r: bool)
    ensures
        r == v@.contains(h),
{
    let mut i: usize = 0;
    while i < v.len()
        invariant
            i <= v@.len(),
            forall|j: int| 0 <= j < i ==> v@[j] != h,
        decreases v@.len() - i,
    {
        if v[i] == h {
            assert(v@[i as int] == h);
            return true;
        }
        i = i + 1;
    }
    false
}

/// Whether entity `e` is drawn with block `block` (`map` is the drawing's
/// entity-to-block map).
pub fn entity_visible(
    e: &DrawnEntity,
    layers: &Vec<LayerInfo>,
    frozen: Option<&Vec<u64>>,
    brs: &Vec<BlockRecordRec>,
    map: &HashMap<u64, u64>,
    block: u64,
) -> (r: bool)
    requires
        map@ == spec_block_map(brs@),
    ensures
        r == spec_entity_visible(
            *e,
            layers@,
            match frozen {
                Some(f) => Some(f@),
                None => None,
            },
            brs@,
            block,
        ),
{
    if e.invisible || e.block_marker {
        return false;
    }
    let p = find_layer(layers, e.layer.as_str());
    match p {
        Some(i) => {
            if layers[i].off || layers[i].frozen {
                return false;
            }
            match frozen {
                Some(f) => {
                    if f.len() > 0 && holds_handle(f, layers[i].handle) {
                        return false;
                    }
                },
                None => {},
            }
        },
        None => {},
    }
    belongs_to_visible_block(brs, map, e.handle, e.owner, block)
}

/// An entity draws with its own line weight when it gives one; when it gives
/// `ByLayer`, `ByBlock` or `Default` instead, it draws with its layer's weight,
/// or with `Default` on a layer the table lacks.
pub proof fn law_lineweight_from_layer(w: LineWeightValue, layer: Seq<char>, ls: Seq<LayerInfo>)
    ensures
        w is Value ==> spec_resolved_lineweight(w, layer, ls) == w,
        !(w is Value) && layer_pos(ls, layer) >= 0 ==> spec_resolved_lineweight(w, layer, ls)
            == ls[layer_pos(ls, layer)].line_weight,
        !(w is Value) && layer_pos(ls, layer) < 0 ==> spec_resolved_lineweight(w, layer, ls)
            == LineWeightValue::Default,
        spec_resolved_lineweight(LineWeightValue::ByLayer, layer, ls) == spec_resolved_lineweight(
            LineWeightValue::Default,
            layer,
            ls,
        ),
        spec_resolved_lineweight(LineWeightValue::ByBlock, layer, ls) == spec_resolved_lineweight(
            LineWeightValue::Default,
            layer,
            ls,
        ),
{
}

} // verus!
