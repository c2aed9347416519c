//! What the four per-slicer processors share: the object registry, point
//! collection, slicer detection, and the placement of the annotation
//! header before the first real instruction.

use vstd::prelude::*;

pub mod cura;
pub mod ideamaker;
pub mod m486;
pub mod slic3r;

verus! {

use vstd::string::StringSliceAdditionalSpecFns;
use crate::gcode::{header_chunks, line_chunk, params_of, parse_gcode, push_line_chunk};
use crate::hulls::{KnownObject, ObjModel, ascii_of, clean_of, coord_check, coord_ok, reg_model};
use crate::layers::LayerFilter;
use crate::text::{
    SEMICOLON, blank, copy_bytes, is_blank, bytes_eq, lower_byte, trim, trim_spec, LOWER_G,
};
use cura::CuraProcessor;
use ideamaker::IdeaMakerProcessor;
use m486::M486Processor;
use slic3r::Slic3rProcessor;

/// The processor that the detected slicer calls for.
pub enum PreProcessorImpl {
    Slic3r(Slic3rProcessor),
    Cura(CuraProcessor),
    IdeaMaker(IdeaMakerProcessor),
    M486(M486Processor),
}

impl PreProcessorImpl {
    /// What the selected processor emits for the file.
    pub open spec fn output_of(&self, lines: Seq<Seq<u8>>, f: LayerFilter) -> Seq<Seq<u8>> {
        match self {
            PreProcessorImpl::Slic3r(_) => slic3r::slic3r_output(lines, f),
            PreProcessorImpl::Cura(_) => cura::cura_output(lines, f),
            PreProcessorImpl::IdeaMaker(_) => ideamaker::idea_output(lines, f),
            PreProcessorImpl::M486(_) => m486::m486_output(lines, f),
        }
    }

    /// Run the selected processor's two passes over the file's lines.
    pub fn process(&self, lines: &Vec<Vec<u8>>, layer_filter: &LayerFilter) -> (r: Vec<Vec<u8>>)
        requires
            layer_filter.wf(),
            lines@.len() <= isize::MAX,
        ensures
            r.deep_view() == self.output_of(lines.deep_view(), *layer_filter),
    {
        match self {
            PreProcessorImpl::Slic3r(p) => p.process(lines, layer_filter),
            PreProcessorImpl::Cura(p) => p.process(lines, layer_filter),
            PreProcessorImpl::IdeaMaker(p) => p.process(lines, layer_filter),
            PreProcessorImpl::M486(p) => p.process(lines, layer_filter),
        }
    }
}

/// Which processor a signature line selects: the Slic3r family covers
/// SuperSlicer, PrusaSlicer and Slic3r banners; Cura and ideaMaker have
/// their own banners; a bare `M486` command marks Marlin-tagged G-code.
pub open spec fn spec_identify(line: Seq<u8>) -> Option<PreProcessorImpl> {
    let t = trim_spec(line);
    if crate::text::is_prefix("; generated by SuperSlicer".spec_bytes(), t) {
        Option::Some(PreProcessorImpl::Slic3r(Slic3rProcessor {  }))
    } else if crate::text::is_prefix("; generated by PrusaSlicer".spec_bytes(), t) {
        Option::Some(PreProcessorImpl::Slic3r(Slic3rProcessor {  }))
    } else if crate::text::is_prefix("; generated by Slic3r".spec_bytes(), t) {
        Option::Some(PreProcessorImpl::Slic3r(Slic3rProcessor {  }))
    } else if crate::text::is_prefix(";Generated with Cura_SteamEngine".spec_bytes(), t) {
        Option::Some(PreProcessorImpl::Cura(CuraProcessor {  }))
    } else if crate::text::is_prefix(";Sliced by ideaMaker".spec_bytes(), t) {
        Option::Some(PreProcessorImpl::IdeaMaker(IdeaMakerProcessor {  }))
    } else if crate::text::is_prefix("M486".spec_bytes(), t) {
        Option::Some(PreProcessorImpl::M486(M486Processor {  }))
    } else {
        Option::None
    }
}

/// Match one line against the known slicer signatures.
pub fn identify_slicer_marker(line: &Vec<u8>) -> (r: Option<PreProcessorImpl>)
    ensures
        r == spec_identify(line@),
{
    let t = trim(line);
    if crate::text::starts_with(&t, "; generated by SuperSlicer") {
        Option::Some(PreProcessorImpl::Slic3r(Slic3rProcessor {  }))
    } else if crate::text::starts_with(&t, "; generated by PrusaSlicer") {
        Option::Some(PreProcessorImpl::Slic3r(Slic3rProcessor {  }))
    } else if crate::text::starts_with(&t, "; generated by Slic3r") {
        Option::Some(PreProcessorImpl::Slic3r(Slic3rProcessor {  }))
    } else if crate::text::starts_with(&t, ";Generated with Cura_SteamEngine") {
        Option::Some(PreProcessorImpl::Cura(CuraProcessor {  }))
    } else if crate::text::starts_with(&t, ";Sliced by ideaMaker") {
        Option::Some(PreProcessorImpl::IdeaMaker(IdeaMakerProcessor {  }))
    } else if crate::text::starts_with(&t, "M486") {
        Option::Some(PreProcessorImpl::M486(M486Processor {  }))
    } else {
        Option::None
    }
}

/// Index of the first registry entry recorded under `id`, or the length.
pub open spec fn reg_index(m: Seq<(Seq<u8>, ObjModel)>, id: Seq<u8>) -> int
    decreases m.len(),
{
    if m.len() == 0 {
        0
    } else if m[0].0 == id {
        0
    } else {
        1 + reg_index(m.subrange(1, m.len() as int), id)
    }
}

pub proof fn lemma_reg_index(m: Seq<(Seq<u8>, ObjModel)>, id: Seq<u8>)
    ensures
        0 <= reg_index(m, id) <= m.len(),
        forall|k: int| 0 <= k < reg_index(m, id) ==> (#[trigger] m[k]).0 != id,
        reg_index(m, id) < m.len() ==> m[reg_index(m, id)].0 == id,
    decreases m.len(),
{
    if m.len() == 0 || m[0].0 == id {
    } else {
        let rest = m.subrange(1, m.len() as int);
        lemma_reg_index(rest, id);
        assert forall|k: int| 0 <= k < reg_index(m, id) implies (#[trigger] m[k]).0 != id by {
            if k > 0 {
                assert(rest[k - 1].0 != id);
            }
        }
        if reg_index(m, id) < m.len() {
            assert(m[reg_index(m, id)] == rest[reg_index(m, id) - 1]);
        }
    }
}

/// No two registry entries are recorded under the same id.
pub open spec fn ids_unique(m: Seq<(Seq<u8>, ObjModel)>) -> bool {
    forall|i: int, j: int| 0 <= i < j < m.len() ==> (#[trigger] m[i]).0 != (#[trigger] m[j]).0
}

/// Every object of the registry is well-formed.
pub open spec fn objects_wf(reg: Seq<(Vec<u8>, KnownObject)>) -> bool {
    forall|i: int| 0 <= i < reg.len() ==> (#[trigger] reg[i]).1.wf()
}

/// Find the entry recorded under `id`; the length means "absent".
pub fn reg_find(reg: &Vec<(Vec<u8>, KnownObject)>, id: &Vec<u8>) -> (r: usize)
    ensures
        r == reg_index(reg_model(reg@), id@),
{
    let ghost m = reg_model(reg@);
    proof {
        lemma_reg_index(m, id@);
    }
    let mut i: usize = 0;
    while i < reg.len()
        invariant
            i <= reg@.len(),
            forall|k: int| 0 <= k < i ==> (#[trigger] m[k]).0 != id@,
        decreases reg@.len() - i,
    {
        if bytes_eq(&reg[i].0, id) {
            assert(m[i as int].0 == id@);
            assert(i == reg_index(m, id@)) by {
                if i < reg_index(m, id@) {
                    assert(m[i as int].0 != id@);
                }
                if i > reg_index(m, id@) {
                    assert(m[reg_index(m, id@)].0 != id@);
                }
            }
            return i;
        }
        assert(m[i as int].0 != id@);
        i = i + 1;
    }
    assert(i == reg_index(m, id@)) by {
        if reg_index(m, id@) < m.len() {
            assert(m[reg_index(m, id@)].0 != id@);
        }
    }
    i
}

/// The model of a fresh registry entry for the label `label` under `id`.
pub open spec fn new_entry_model(id: Seq<u8>, label: Seq<u8>) -> (Seq<u8>, ObjModel) {
    (id, ObjModel { name: clean_of(ascii_of(label)), layer: -1, points: Seq::empty() })
}

/// Append a fresh object recorded under `id`, named after `label`.
pub fn reg_insert(reg: &mut Vec<(Vec<u8>, KnownObject)>, id: &Vec<u8>, label: &Vec<u8>)
    requires
        objects_wf(old(reg)@),
    ensures
        objects_wf(final(reg)@),
        reg_model(final(reg)@) == reg_model(old(reg)@).push(new_entry_model(id@, label@)),
{
    let ghost m0 = reg_model(reg@);
    let entry = (copy_bytes(id), KnownObject::new(label));
    reg.push(entry);
    proof {
        assert(reg_model(reg@).last().1 =~~= new_entry_model(id@, label@).1);
        assert(reg_model(reg@) =~~= m0.push(new_entry_model(id@, label@)));
        assert(objects_wf(reg@)) by {
            assert(forall|i: int| 0 <= i < old(reg)@.len() ==> reg@[i] == old(reg)@[i]);
        }
    }
}

/// The registry with the layer counter of entry `i` advanced by one.
pub open spec fn bump_model(m: Seq<(Seq<u8>, ObjModel)>, i: int) -> Seq<(Seq<u8>, ObjModel)> {
    m.update(
        i,
        (m[i].0, ObjModel { name: m[i].1.name, layer: m[i].1.layer + 1, points: m[i].1.points }),
    )
}

/// Advance the layer counter of entry `idx`.
pub fn reg_bump(reg: &mut Vec<(Vec<u8>, KnownObject)>, idx: usize)
    requires
        objects_wf(old(reg)@),
        idx < old(reg)@.len(),
        old(reg)@[idx as int].1.layer < isize::MAX,
    ensures
        objects_wf(final(reg)@),
        reg_model(final(reg)@) == bump_model(reg_model(old(reg)@), idx as int),
        final(reg)@.len() == old(reg)@.len(),
{
    let ghost m0 = reg_model(reg@);
    let mut entry = reg.remove(idx);
    entry.1.layer = entry.1.layer + 1;
    reg.insert(idx, entry);
    proof {
        assert(reg_model(reg@) =~~= bump_model(m0, idx as int));
        assert(objects_wf(reg@)) by {
            assert(forall|i: int|
                0 <= i < reg@.len() && i != idx ==> reg@[i] == old(reg)@[i]);
        }
    }
}

/// The deduplicating insertion of one point.
pub open spec fn added(pts: Seq<(Seq<u8>, Seq<u8>)>, p: (Seq<u8>, Seq<u8>)) -> Seq<
    (Seq<u8>, Seq<u8>),
> {
    if pts.contains(p) {
        pts
    } else {
        pts.push(p)
    }
}

/// Whether a line contributes a point: the object's current layer passes
/// the filter, the line is a motion command (it starts with `G`), and its
/// `E`, `X` and `Y` parameters all parse as coordinates.
pub open spec fn wants_point(line: Seq<u8>, layer: int, f: LayerFilter) -> bool {
    let t = trim_spec(line);
    let m = params_of(line);
    &&& f.spec_contains(layer)
    &&& t.len() > 0
    &&& lower_byte(t[0]) == LOWER_G
    &&& m.contains_key("E".spec_bytes())
    &&& coord_ok(m["E".spec_bytes()])
    &&& m.contains_key("X".spec_bytes())
    &&& coord_ok(m["X".spec_bytes()])
    &&& m.contains_key("Y".spec_bytes())
    &&& coord_ok(m["Y".spec_bytes()])
}

/// The coordinate pair a contributing line carries.
pub open spec fn line_point(line: Seq<u8>) -> (Seq<u8>, Seq<u8>) {
    (params_of(line)["X".spec_bytes()], params_of(line)["Y".spec_bytes()])
}

/// The object's points after seeing `line` on layer `layer`.
pub open spec fn maybe_points(
    line: Seq<u8>,
    layer: int,
    pts: Seq<(Seq<u8>, Seq<u8>)>,
    f: LayerFilter,
) -> Seq<(Seq<u8>, Seq<u8>)> {
    if wants_point(line, layer, f) {
        added(pts, line_point(line))
    } else {
        pts
    }
}

/// The layer index handed to the filter: the counter read as an unsigned
/// number, so the starting value `-1` queries the greatest index.
pub open spec fn eff_layer(layer: int) -> int
    recommends
        layer >= -1,
{
    if layer >= 0 {
        layer
    } else {
        usize::MAX as int
    }
}

/// Record the line's extrusion point on the current object, when the line
/// is a motion command on a layer the filter accepts.
pub fn maybe_add_point(line: &Vec<u8>, object: &mut KnownObject, layer_filter: &LayerFilter)
    requires
        old(object).wf(),
        old(object).layer >= -1,
        layer_filter.wf(),
    ensures
        final(object).wf(),
        final(object).name == old(object).name,
        final(object).layer == old(object).layer,
        final(object).hull.model() == maybe_points(
            line@,
            eff_layer(old(object).layer as int),
            old(object).hull.model(),
            *layer_filter,
        ),
{
    let layer_arg: usize = if object.layer >= 0 {
        object.layer as usize
    } else {
        usize::MAX
    };
    if !layer_filter.contains(layer_arg) {
        return ;
    }
    let t = trim(line);
    if t.len() == 0 {
        return ;
    }
    let b = t[0];
    let lb = if 65 <= b && b <= 90 {
        b + 32
    } else {
        b
    };
    assert(lb == lower_byte(trim_spec(line@)[0]));
    if lb != LOWER_G {
        return ;
    }
    let cmd = parse_gcode(line);
    let e_ok = match cmd.get("E") {
        Option::Some(v) => coord_check(v),
        Option::None => false,
    };
    if !e_ok {
        return ;
    }
    let x = match cmd.get("X") {
        Option::Some(v) => if coord_check(v) {
            Option::Some(copy_bytes(v))
        } else {
            Option::None
        },
        Option::None => Option::None,
    };
    let y = match cmd.get("Y") {
        Option::Some(v) => if coord_check(v) {
            Option::Some(copy_bytes(v))
        } else {
            Option::None
        },
        Option::None => Option::None,
    };
    match (x, y) {
        (Option::Some(xv), Option::Some(yv)) => {
            assert(wants_point(line@, eff_layer(object.layer as int), *layer_filter));
            assert((xv@, yv@) == line_point(line@));
            object.hull.add_point(xv, yv);
        },
        _ => {
            assert(!wants_point(line@, eff_layer(object.layer as int), *layer_filter));
        },
    }
}

/// Every point of `a` also stands in `b`.
pub open spec fn points_subset(a: Seq<(Seq<u8>, Seq<u8>)>, b: Seq<(Seq<u8>, Seq<u8>)>) -> bool {
    forall|p: (Seq<u8>, Seq<u8>)| a.contains(p) ==> b.contains(p)
}

/// `f1` accepts at most the layers `f2` accepts.
pub open spec fn filter_le(f1: LayerFilter, f2: LayerFilter) -> bool {
    forall|v: int| f1.spec_contains(v) ==> f2.spec_contains(v)
}

/// Two registries that differ at most in their point sets, the first
/// holding a subset of the second's points, object for object.
pub open spec fn reg_refines(m1: Seq<(Seq<u8>, ObjModel)>, m2: Seq<(Seq<u8>, ObjModel)>) -> bool {
    &&& m1.len() == m2.len()
    &&& forall|k: int|
        0 <= k < m1.len() ==> (#[trigger] m1[k]).0 == m2[k].0 && m1[k].1.name == m2[k].1.name
            && m1[k].1.layer == m2[k].1.layer && points_subset(m1[k].1.points, m2[k].1.points)
}

/// Lookup sees only the ids, which refinement keeps.
pub proof fn lemma_reg_index_refines(
    m1: Seq<(Seq<u8>, ObjModel)>,
    m2: Seq<(Seq<u8>, ObjModel)>,
    id: Seq<u8>,
)
    requires
        m1.len() == m2.len(),
        forall|k: int| 0 <= k < m1.len() ==> (#[trigger] m1[k]).0 == m2[k].0,
    ensures
        reg_index(m1, id) == reg_index(m2, id),
    decreases m1.len(),
{
    if m1.len() > 0 {
        assert(m1[0].0 == m2[0].0);
        let t1 = m1.subrange(1, m1.len() as int);
        let t2 = m2.subrange(1, m2.len() as int);
        assert(forall|k: int| 0 <= k < t1.len() ==> (#[trigger] t1[k]).0 == t2[k].0) by {
            assert(forall|k: int|
                0 <= k < t1.len() ==> t1[k] == m1[k + 1] && t2[k] == m2[k + 1]);
        }
        lemma_reg_index_refines(t1, t2, id);
    }
}

/// A narrower filter never adds a point: what one line contributes under
/// `f1` it also contributes under `f2`.
pub proof fn lemma_maybe_points_monotone(
    line: Seq<u8>,
    layer: int,
    pts1: Seq<(Seq<u8>, Seq<u8>)>,
    pts2: Seq<(Seq<u8>, Seq<u8>)>,
    f1: LayerFilter,
    f2: LayerFilter,
)
    requires
        filter_le(f1, f2),
        points_subset(pts1, pts2),
    ensures
        points_subset(maybe_points(line, layer, pts1, f1), maybe_points(line, layer, pts2, f2)),
{
    let a = maybe_points(line, layer, pts1, f1);
    let b = maybe_points(line, layer, pts2, f2);
    if wants_point(line, layer, f1) {
        assert(wants_point(line, layer, f2));
    }
    assert forall|p: (Seq<u8>, Seq<u8>)| a.contains(p) implies b.contains(p) by {
        let q = line_point(line);
        if pts1.contains(p) {
            assert(pts2.contains(p));
            if wants_point(line, layer, f2) && !pts2.contains(q) {
                let w = choose|w: int| 0 <= w < pts2.len() && pts2[w] == p;
                assert(pts2.push(q)[w] == p);
                assert(b.contains(p));
            }
        } else {
            assert(wants_point(line, layer, f1)) by {
                if !wants_point(line, layer, f1) {
                    assert(a == pts1);
                }
            }
            assert(!pts1.contains(q)) by {
                if pts1.contains(q) {
                    assert(a == pts1);
                }
            }
            assert(a == pts1.push(q));
            let w = choose|w: int| 0 <= w < a.len() && a[w] == p;
            assert(p == q) by {
                if w < pts1.len() {
                    assert(pts1[w] == p);
                }
            }
            assert(wants_point(line, layer, f2));
            if pts2.contains(q) {
                assert(b == pts2);
            } else {
                assert(pts2.push(q)[pts2.len() as int] == q);
                assert(b.contains(p));
            }
        }
    }
}

/// The registry after the current object took the line's point, if any.
pub open spec fn collect_model(
    m: Seq<(Seq<u8>, ObjModel)>,
    i: int,
    line: Seq<u8>,
    f: LayerFilter,
) -> Seq<(Seq<u8>, ObjModel)> {
    m.update(
        i,
        (
            m[i].0,
            ObjModel {
                name: m[i].1.name,
                layer: m[i].1.layer,
                points: maybe_points(line, m[i].1.layer, m[i].1.points, f),
            },
        ),
    )
}

/// Let the object of entry `idx` collect the line's point, if any.
pub fn reg_collect(
    reg: &mut Vec<(Vec<u8>, KnownObject)>,
    idx: usize,
    line: &Vec<u8>,
    layer_filter: &LayerFilter,
)
    requires
        objects_wf(old(reg)@),
        idx < old(reg)@.len(),
        old(reg)@[idx as int].1.layer >= 0,
        layer_filter.wf(),
    ensures
        objects_wf(final(reg)@),
        reg_model(final(reg)@) == collect_model(
            reg_model(old(reg)@),
            idx as int,
            line@,
            *layer_filter,
        ),
        final(reg)@.len() == old(reg)@.len(),
{
    let ghost m0 = reg_model(reg@);
    let mut entry = reg.remove(idx);
    maybe_add_point(line, &mut entry.1, layer_filter);
    reg.insert(idx, entry);
    proof {
        assert(reg_model(reg@) =~~= collect_model(m0, idx as int, line@, *layer_filter));
        assert(objects_wf(reg@)) by {
            assert(forall|i: int|
                0 <= i < reg@.len() && i != idx ==> reg@[i] == old(reg)@[i]);
        }
    }
}

/// The registry after the current object took the line's point, reading
/// the layer counter as the filter sees it (unsigned).
pub open spec fn collect_model_eff(
    m: Seq<(Seq<u8>, ObjModel)>,
    i: int,
    line: Seq<u8>,
    f: LayerFilter,
) -> Seq<(Seq<u8>, ObjModel)> {
    m.update(
        i,
        (
            m[i].0,
            ObjModel {
                name: m[i].1.name,
                layer: m[i].1.layer,
                points: maybe_points(line, eff_layer(m[i].1.layer), m[i].1.points, f),
            },
        ),
    )
}

/// Let the object of entry `idx` collect the line's point, whatever its
/// layer counter holds.
pub fn reg_collect_eff(
    reg: &mut Vec<(Vec<u8>, KnownObject)>,
    idx: usize,
    line: &Vec<u8>,
    layer_filter: &LayerFilter,
)
    requires
        objects_wf(old(reg)@),
        idx < old(reg)@.len(),
        old(reg)@[idx as int].1.layer >= -1,
        layer_filter.wf(),
    ensures
        objects_wf(final(reg)@),
        reg_model(final(reg)@) == collect_model_eff(
            reg_model(old(reg)@),
            idx as int,
            line@,
            *layer_filter,
        ),
        final(reg)@.len() == old(reg)@.len(),
{
    let ghost m0 = reg_model(reg@);
    let mut entry = reg.remove(idx);
    maybe_add_point(line, &mut entry.1, layer_filter);
    reg.insert(idx, entry);
    proof {
        assert(reg_model(reg@) =~~= collect_model_eff(m0, idx as int, line@, *layer_filter));
        assert(objects_wf(reg@)) by {
            assert(forall|i: int|
                0 <= i < reg@.len() && i != idx ==> reg@[i] == old(reg)@[i]);
        }
    }
}

/// What follows the first `:` of the line, trimmed: how Cura and
/// ideaMaker boundary comments carry their object id.
pub open spec fn after_colon(line: Seq<u8>) -> Option<Seq<u8>> {
    let i = crate::text::find_idx(line, crate::text::COLON);
    if 0 <= i < line.len() {
        Option::Some(trim_spec(line.subrange(i + 1, line.len() as int)))
    } else {
        Option::None
    }
}

/// Split the line at its first `:` and trim what follows.
pub fn split_after_colon(line: &Vec<u8>) -> (r: Option<Vec<u8>>)
    ensures
        match r {
            Option::Some(v) => after_colon(line@) == Option::Some(v@),
            Option::None => after_colon(line@) is None,
        },
{
    let i = crate::text::find_byte(line, crate::text::COLON);
    proof {
        crate::text::lemma_find_idx(line@, crate::text::COLON);
    }
    if i < line.len() {
        let tail = crate::text::subv(line, i + 1, line.len());
        Option::Some(trim(&tail))
    } else {
        Option::None
    }
}

/// What follows the first occurrence of `pat`, trimmed: how the Slic3r
/// family's boundary comments carry their object id.
pub open spec fn after_pattern(line: Seq<u8>, pat: Seq<u8>) -> Option<Seq<u8>> {
    let fidx = crate::text::sub_find(line, pat, 0);
    if 0 <= fidx < line.len() {
        Option::Some(trim_spec(line.subrange(fidx + pat.len(), line.len() as int)))
    } else {
        Option::None
    }
}

/// Split the line at the first occurrence of the literal `pat` and trim
/// what follows.
pub fn split_after_pattern(line: &Vec<u8>, pat: &str) -> (r: Option<Vec<u8>>)
    ensures
        match r {
            Option::Some(v) => after_pattern(line@, pat.spec_bytes()) == Option::Some(v@),
            Option::None => after_pattern(line@, pat.spec_bytes()) is None,
        },
{
    let f = crate::text::find_sub(line, pat);
    proof {
        crate::text::lemma_sub_find(line@, pat.spec_bytes(), 0);
    }
    if f < line.len() {
        let pb = pat.as_bytes();
        let tail = crate::text::subv(line, f + pb.len(), line.len());
        Option::Some(trim(&tail))
    } else {
        Option::None
    }
}

/// After pushing a fresh entry for `id`, that entry is where lookup finds
/// `id`.
pub proof fn lemma_reg_index_push(m: Seq<(Seq<u8>, ObjModel)>, e: (Seq<u8>, ObjModel))
    ensures
        reg_index(m.push(e), e.0) == if reg_index(m, e.0) < m.len() {
            reg_index(m, e.0)
        } else {
            m.len() as int
        },
{
    lemma_reg_index(m, e.0);
    lemma_reg_index(m.push(e), e.0);
    let n = m.push(e);
    let f0 = reg_index(m, e.0);
    let f1 = reg_index(n, e.0);
    assert(n[m.len() as int].0 == e.0);
    assert(forall|k: int| 0 <= k < m.len() ==> n[k] == m[k]);
    if f0 < m.len() {
        assert(n[f0].0 == e.0);
        if f1 < f0 {
            assert(m[f1].0 != e.0);
        }
        if f1 > f0 {
            assert(n[f0].0 != e.0);
        }
    } else {
        if f1 < m.len() {
            assert(m[f1].0 != e.0);
        }
        assert(f1 == m.len()) by {
            if f1 > m.len() {
                assert(n[m.len() as int].0 != e.0);
            }
        }
    }
}

/// The view of an optional byte vector.
pub open spec fn view_opt(o: Option<Vec<u8>>) -> Option<Seq<u8>> {
    match o {
        Option::Some(v) => Option::Some(v@),
        Option::None => Option::None,
    }
}

/// The mathematical value of an optional index.
pub open spec fn idx_opt(o: Option<usize>) -> Option<int> {
    match o {
        Option::Some(u) => Option::Some(u as int),
        Option::None => Option::None,
    }
}

/// A line that is neither blank nor a comment: where the annotation header
/// goes, the pre-print metadata block has ended.
pub open spec fn is_real(line: Seq<u8>) -> bool {
    !is_blank(line) && line[0] != SEMICOLON
}

/// Index of the first real line at or after `i`, or the line count.
pub open spec fn first_real(lines: Seq<Seq<u8>>, i: int) -> int
    decreases lines.len() - i,
{
    if i < 0 || i >= lines.len() {
        lines.len() as int
    } else if is_real(lines[i]) {
        i
    } else {
        first_real(lines, i + 1)
    }
}

pub proof fn lemma_first_real(lines: Seq<Seq<u8>>, i: int)
    requires
        0 <= i <= lines.len(),
    ensures
        i <= first_real(lines, i) <= lines.len(),
        forall|k: int| i <= k < first_real(lines, i) ==> !is_real(lines[k]),
        first_real(lines, i) < lines.len() ==> is_real(lines[first_real(lines, i)]),
    decreases lines.len() - i,
{
    if i < lines.len() && !is_real(lines[i]) {
        lemma_first_real(lines, i + 1);
    }
}

/// The chunks that copy lines `i..j` through unchanged.
pub open spec fn lines_chunks(lines: Seq<Seq<u8>>, i: int, j: int) -> Seq<Seq<u8>>
    decreases j - i,
{
    if i < 0 || i >= j || i >= lines.len() {
        Seq::empty()
    } else {
        seq![line_chunk(lines[i])] + lines_chunks(lines, i + 1, j)
    }
}

/// Everything emitted up to and including the first real line: the leading
/// blank and comment lines verbatim, then the annotation header, then that
/// first real line. A file of nothing but comments gets no header.
pub open spec fn prelude_chunks(
    lines: Seq<Seq<u8>>,
    objects: Seq<(Seq<u8>, ObjModel)>,
) -> Seq<Seq<u8>> {
    let fr = first_real(lines, 0);
    if fr < lines.len() {
        lines_chunks(lines, 0, fr) + header_chunks(objects) + seq![line_chunk(lines[fr])]
    } else {
        lines_chunks(lines, 0, fr)
    }
}

/// Where emission resumes after the prelude.
pub open spec fn resume_at(lines: Seq<Seq<u8>>) -> int {
    if first_real(lines, 0) < lines.len() {
        first_real(lines, 0) + 1
    } else {
        lines.len() as int
    }
}

/// Append a whole chunk sequence.
pub fn push_chunks(out: &mut Vec<Vec<u8>>, chunks: &Vec<Vec<u8>>)
    ensures
        final(out).deep_view() == old(out).deep_view() + chunks.deep_view(),
{
    let mut i: usize = 0;
    proof {
        assert(out.deep_view() =~= old(out).deep_view() + chunks.deep_view().subrange(0, 0));
    }
    while i < chunks.len()
        invariant
            i <= chunks@.len(),
            out.deep_view() == old(out).deep_view() + chunks.deep_view().subrange(0, i as int),
        decreases chunks@.len() - i,
    {
        let ghost prev = out.deep_view();
        out.push(copy_bytes(&chunks[i]));
        proof {
            assert(out.deep_view() =~~= prev.push(chunks.deep_view()[i as int]));
            assert(out.deep_view() =~= old(out).deep_view() + chunks.deep_view().subrange(
                0,
                i + 1,
            ));
        }
        i = i + 1;
    }
    proof {
        assert(chunks.deep_view().subrange(0, chunks.deep_view().len() as int) =~= chunks.deep_view());
    }
}

/// Copy the leading blank and comment lines through, and at the first real
/// line emit the header followed by that line; returns where the remainder
/// of the file begins.
pub fn emit_prelude(
    lines: &Vec<Vec<u8>>,
    header_registry: &Vec<(Vec<u8>, KnownObject)>,
    out: &mut Vec<Vec<u8>>,
) -> (next: usize)
    ensures
        final(out).deep_view() == old(out).deep_view() + prelude_chunks(
            lines.deep_view(),
            reg_model(header_registry@),
        ),
        next as int == resume_at(lines.deep_view()),
        next <= lines@.len(),
{
    let ghost lv = lines.deep_view();
    proof {
        lemma_first_real(lv, 0);
    }
    let mut i: usize = 0;
    proof {
        assert(out.deep_view() =~= old(out).deep_view() + lines_chunks(lv, 0, 0));
    }
    while i < lines.len()
        invariant
            i <= lv.len() == lines@.len(),
            out.deep_view() == old(out).deep_view() + lines_chunks(lv, 0, i as int),
            forall|k: int| 0 <= k < i ==> !is_real(lv[k]),
        decreases lv.len() - i,
    {
        let line = &lines[i];
        assert(line@ == lv[i as int]);
        let real_line: bool = if blank(line) {
            false
        } else {
            assert(line@.len() > 0) by {
                assert(!is_blank(line@));
            }
            line[0] != SEMICOLON
        };
        assert(real_line == is_real(lv[i as int]));
        if real_line {
            proof {
                assert(i as int == first_real(lv, 0)) by {
                    if (i as int) < first_real(lv, 0) {
                        assert(!is_real(lv[i as int]));
                    }
                    if (i as int) > first_real(lv, 0) {
                        assert(!is_real(lv[first_real(lv, 0)]));
                    }
                }
            }
            let header = crate::gcode::exclude_object_header(header_registry);
            push_chunks(out, &header);
            push_line_chunk(out, line);
            proof {
                assert(out.deep_view() =~= old(out).deep_view() + prelude_chunks(
                    lv,
                    reg_model(header_registry@),
                ));
            }
            return i + 1;
        }
        let ghost prev = out.deep_view();
        push_line_chunk(out, line);
        proof {
            lemma_lines_chunks_snoc(lv, 0, i as int);
            assert(out.deep_view() =~= old(out).deep_view() + lines_chunks(lv, 0, i + 1));
        }
        i = i + 1;
    }
    proof {
        assert(i as int == first_real(lv, 0)) by {
            if first_real(lv, 0) < lv.len() {
                assert(!is_real(lv[first_real(lv, 0)]));
            }
        }
        assert(out.deep_view() =~= old(out).deep_view() + prelude_chunks(
            lv,
            reg_model(header_registry@),
        ));
    }
    i
}

/// The copied prelude lines hold no marker chunk.
pub proof fn lemma_lines_chunks_no_markers(lines: Seq<Seq<u8>>, i: int, j: int, n: Seq<u8>)
    requires
        crate::gcode::no_marker_lines(lines),
        0 <= i,
    ensures
        crate::gcode::count_eq(lines_chunks(lines, i, j), crate::gcode::start_marker(n)) == 0,
        crate::gcode::count_eq(lines_chunks(lines, i, j), crate::gcode::end_marker(n)) == 0,
    decreases j - i,
{
    if i < j && i < lines.len() {
        crate::gcode::lemma_line_chunk_not_marker(lines[i], n);
        lemma_lines_chunks_no_markers(lines, i + 1, j, n);
        crate::gcode::lemma_count_eq_concat(
            seq![line_chunk(lines[i])],
            lines_chunks(lines, i + 1, j),
            crate::gcode::start_marker(n),
        );
        crate::gcode::lemma_count_eq_concat(
            seq![line_chunk(lines[i])],
            lines_chunks(lines, i + 1, j),
            crate::gcode::end_marker(n),
        );
        crate::gcode::lemma_count_eq_single(line_chunk(lines[i]), crate::gcode::start_marker(n));
        crate::gcode::lemma_count_eq_single(line_chunk(lines[i]), crate::gcode::end_marker(n));
    }
}

/// The prelude, header included, holds no marker chunk.
pub proof fn lemma_prelude_no_markers(
    lines: Seq<Seq<u8>>,
    objects: Seq<(Seq<u8>, ObjModel)>,
    n: Seq<u8>,
)
    requires
        crate::gcode::no_marker_lines(lines),
    ensures
        crate::gcode::count_eq(prelude_chunks(lines, objects), crate::gcode::start_marker(n)) == 0,
        crate::gcode::count_eq(prelude_chunks(lines, objects), crate::gcode::end_marker(n)) == 0,
{
    let fr = first_real(lines, 0);
    lemma_first_real(lines, 0);
    lemma_lines_chunks_no_markers(lines, 0, fr, n);
    crate::gcode::lemma_header_free_of_markers(objects, n);
    crate::gcode::lemma_count_eq_zero(header_chunks(objects), crate::gcode::start_marker(n));
    crate::gcode::lemma_count_eq_zero(header_chunks(objects), crate::gcode::end_marker(n));
    if fr < lines.len() {
        crate::gcode::lemma_line_chunk_not_marker(lines[fr], n);
        crate::gcode::lemma_count_eq_single(line_chunk(lines[fr]), crate::gcode::start_marker(n));
        crate::gcode::lemma_count_eq_single(line_chunk(lines[fr]), crate::gcode::end_marker(n));
        crate::gcode::lemma_count_eq_concat(
            lines_chunks(lines, 0, fr) + header_chunks(objects),
            seq![line_chunk(lines[fr])],
            crate::gcode::start_marker(n),
        );
        crate::gcode::lemma_count_eq_concat(
            lines_chunks(lines, 0, fr) + header_chunks(objects),
            seq![line_chunk(lines[fr])],
            crate::gcode::end_marker(n),
        );
        crate::gcode::lemma_count_eq_concat(
            lines_chunks(lines, 0, fr),
            header_chunks(objects),
            crate::gcode::start_marker(n),
        );
        crate::gcode::lemma_count_eq_concat(
            lines_chunks(lines, 0, fr),
            header_chunks(objects),
            crate::gcode::end_marker(n),
        );
    }
}

/// Which inputs the header-count law covers: none of the file's own
/// lines begins with the definition word. The driver guarantees this for
/// every file it hands to a processor: a file with such a line is copied
/// through unchanged instead.
pub open spec fn no_define_lines(lines: Seq<Seq<u8>>) -> bool {
    forall|k: int|
        0 <= k < lines.len() ==> !crate::text::is_prefix(
            "EXCLUDE_OBJECT_DEFINE NAME=".spec_bytes(),
            #[trigger] lines[k],
        )
}

/// The copied prelude lines hold no definition chunk.
proof fn lemma_lines_chunks_no_defines(lines: Seq<Seq<u8>>, i: int, j: int)
    requires
        no_define_lines(lines),
        0 <= i,
    ensures
        crate::gcode::count_pref(
            lines_chunks(lines, i, j),
            "EXCLUDE_OBJECT_DEFINE NAME=".spec_bytes(),
        ) == 0,
    decreases j - i,
{
    let p = "EXCLUDE_OBJECT_DEFINE NAME=".spec_bytes();
    if i < j && i < lines.len() {
        crate::gcode::lemma_line_chunk_no_define(lines[i]);
        lemma_lines_chunks_no_defines(lines, i + 1, j);
        crate::gcode::lemma_count_pref_concat(
            seq![line_chunk(lines[i])],
            lines_chunks(lines, i + 1, j),
            p,
        );
        let s = seq![line_chunk(lines[i])];
        assert(s.drop_last() =~= Seq::<Seq<u8>>::empty());
        assert(crate::gcode::count_pref(s.drop_last(), p) == 0);
        assert(s.last() == line_chunk(lines[i]));
        assert(crate::gcode::count_pref(s, p) == 0);
    }
}

/// The prelude holds exactly the header's definition lines: one per
/// registry entry when a header is emitted, none otherwise.
pub proof fn lemma_prelude_defines_count(lines: Seq<Seq<u8>>, objects: Seq<(Seq<u8>, ObjModel)>)
    requires
        no_define_lines(lines),
    ensures
        crate::gcode::count_pref(
            prelude_chunks(lines, objects),
            "EXCLUDE_OBJECT_DEFINE NAME=".spec_bytes(),
        ) == if first_real(lines, 0) < lines.len() {
            objects.len() as int
        } else {
            0
        },
{
    let p = "EXCLUDE_OBJECT_DEFINE NAME=".spec_bytes();
    let fr = first_real(lines, 0);
    lemma_first_real(lines, 0);
    lemma_lines_chunks_no_defines(lines, 0, fr);
    if fr < lines.len() {
        crate::gcode::lemma_header_defines_count(objects);
        crate::gcode::lemma_line_chunk_no_define(lines[fr]);
        let s = seq![line_chunk(lines[fr])];
        assert(s.drop_last() =~= Seq::<Seq<u8>>::empty());
        assert(crate::gcode::count_pref(s.drop_last(), p) == 0);
        assert(s.last() == line_chunk(lines[fr]));
        assert(crate::gcode::count_pref(s, p) == 0);
        crate::gcode::lemma_count_pref_concat(
            lines_chunks(lines, 0, fr),
            header_chunks(objects),
            p,
        );
        crate::gcode::lemma_count_pref_concat(
            lines_chunks(lines, 0, fr) + header_chunks(objects),
            s,
            p,
        );
    }
}

/// Appending one more copied line extends the copied-chunk run.
pub proof fn lemma_lines_chunks_snoc(lines: Seq<Seq<u8>>, i: int, j: int)
    requires
        0 <= i <= j < lines.len(),
    ensures
        lines_chunks(lines, i, j + 1) == lines_chunks(lines, i, j).push(line_chunk(lines[j])),
    decreases j - i,
{
    if i == j {
        assert(lines_chunks(lines, i, j) =~= Seq::<Seq<u8>>::empty());
        assert(lines_chunks(lines, j + 1, j + 1) =~= Seq::<Seq<u8>>::empty());
        assert(lines_chunks(lines, i, j + 1) == seq![line_chunk(lines[j])] + lines_chunks(
            lines,
            j + 1,
            j + 1,
        ));
        assert(lines_chunks(lines, i, j + 1) =~= lines_chunks(lines, i, j).push(
            line_chunk(lines[j]),
        ));
    } else {
        lemma_lines_chunks_snoc(lines, i + 1, j);
        assert(lines_chunks(lines, i, j + 1) =~= lines_chunks(lines, i, j).push(
            line_chunk(lines[j]),
        ));
    }
}

} // verus!
