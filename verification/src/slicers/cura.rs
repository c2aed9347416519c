//! The two-pass processor for Cura G-code.
//!
//! Object boundaries are `;MESH:<id>` comments; the id `NONMESH` marks
//! travel moves that belong to no object. A line equal to the last
//! `;TIME_ELAPSED:` comment of the file force-closes the open object, for
//! files that lack a final mesh marker.

use vstd::prelude::*;

verus! {

use vstd::string::StringSliceAdditionalSpecFns;
use crate::gcode::{count_eq, end_marker, line_chunk, no_marker_lines, start_marker};
use crate::hulls::{KnownObject, ObjModel, reg_model};
use crate::layers::LayerFilter;
use crate::text::{bytes_eq, copy_bytes, eq_str, is_prefix, starts_with};
use super::{
    after_colon, bump_model, collect_model, emit_prelude, idx_opt, lemma_reg_index,
    lemma_reg_index_push, new_entry_model, objects_wf, prelude_chunks, reg_bump, reg_collect,
    reg_find, reg_index, reg_insert, resume_at, split_after_colon, view_opt,
};
use crate::gcode::push_line_chunk;

/// The discovery pass state: the registry, the entry now printing, and
/// the latest `;TIME_ELAPSED:` line seen.
#[verifier::ext_equal]
pub struct CuraScan {
    pub reg: Seq<(Seq<u8>, ObjModel)>,
    pub cur: Option<int>,
    pub lte: Option<Seq<u8>>,
}

/// Point collection and time-stamp recording, after any boundary
/// handling.
pub open spec fn scan_tail(st: CuraScan, line: Seq<u8>, f: LayerFilter) -> CuraScan {
    let st1 = match st.cur {
        Option::Some(i) => CuraScan { reg: collect_model(st.reg, i, line, f), cur: st.cur, lte: st.lte },
        Option::None => st,
    };
    if is_prefix(";TIME_ELAPSED:".spec_bytes(), line) {
        CuraScan { reg: st1.reg, cur: st1.cur, lte: Option::Some(line) }
    } else {
        st1
    }
}

/// One line of the discovery pass.
pub open spec fn scan_step(st: CuraScan, line: Seq<u8>, f: LayerFilter) -> CuraScan {
    if is_prefix(";MESH:".spec_bytes(), line) {
        match after_colon(line) {
            Option::None => scan_tail(st, line, f),
            Option::Some(id) => if id == "NONMESH".spec_bytes() {
                st
            } else {
                let m1 = if reg_index(st.reg, id) < st.reg.len() {
                    st.reg
                } else {
                    st.reg.push(new_entry_model(id, id))
                };
                let i = reg_index(m1, id);
                scan_tail(
                    CuraScan { reg: bump_model(m1, i), cur: Option::Some(i), lte: st.lte },
                    line,
                    f,
                )
            },
        }
    } else {
        scan_tail(st, line, f)
    }
}

/// The discovery pass over lines `i..`.
pub open spec fn cura_scan(lines: Seq<Seq<u8>>, i: int, st: CuraScan, f: LayerFilter) -> CuraScan
    decreases lines.len() - i,
{
    if i < 0 || i >= lines.len() {
        st
    } else {
        cura_scan(lines, i + 1, scan_step(st, lines[i], f), f)
    }
}

/// The force-close on the recorded `;TIME_ELAPSED:` line.
pub open spec fn lte_close(
    c: Seq<Seq<u8>>,
    cur: Option<Seq<u8>>,
    line: Seq<u8>,
    lte: Option<Seq<u8>>,
) -> (Seq<Seq<u8>>, Option<Seq<u8>>) {
    match (lte, cur) {
        (Option::Some(l), Option::Some(n)) => if l == line {
            (c.push(end_marker(n)), Option::None)
        } else {
            (c, cur)
        },
        _ => (c, cur),
    }
}

/// One line of the annotated emission pass: the chunks it produces and
/// the object left open.
pub open spec fn emit_step(
    line: Seq<u8>,
    reg: Seq<(Seq<u8>, ObjModel)>,
    lte: Option<Seq<u8>>,
    cur: Option<Seq<u8>>,
) -> (Seq<Seq<u8>>, Option<Seq<u8>>) {
    let c0 = seq![line_chunk(line)];
    if is_prefix(";MESH:".spec_bytes(), line) {
        let c1 = match cur {
            Option::Some(n) => c0.push(end_marker(n)),
            Option::None => c0,
        };
        match after_colon(line) {
            Option::None => lte_close(c1, Option::None, line, lte),
            Option::Some(id) => if id == "NONMESH".spec_bytes() {
                (c1, Option::None)
            } else {
                let f = reg_index(reg, id);
                if f < reg.len() {
                    lte_close(
                        c1.push(start_marker(reg[f].1.name)),
                        Option::Some(reg[f].1.name),
                        line,
                        lte,
                    )
                } else {
                    lte_close(c1, Option::None, line, lte)
                }
            },
        }
    } else {
        lte_close(c0, cur, line, lte)
    }
}

/// The annotated emission of lines `i..`, closing any open object at the
/// end of the stream.
pub open spec fn cura_emit(
    lines: Seq<Seq<u8>>,
    i: int,
    reg: Seq<(Seq<u8>, ObjModel)>,
    lte: Option<Seq<u8>>,
    cur: Option<Seq<u8>>,
) -> Seq<Seq<u8>>
    decreases lines.len() - i,
{
    if i < 0 || i >= lines.len() {
        match cur {
            Option::Some(n) => seq![end_marker(n)],
            Option::None => Seq::empty(),
        }
    } else {
        let (c, cur2) = emit_step(lines[i], reg, lte, cur);
        c + cura_emit(lines, i + 1, reg, lte, cur2)
    }
}

/// Everything the processor emits for the file.
pub open spec fn cura_output(lines: Seq<Seq<u8>>, f: LayerFilter) -> Seq<Seq<u8>> {
    let st = cura_scan(
        lines,
        0,
        CuraScan { reg: Seq::empty(), cur: Option::None, lte: Option::None },
        f,
    );
    prelude_chunks(lines, st.reg) + cura_emit(lines, resume_at(lines), st.reg, st.lte, Option::None)
}

/// Whether the current-object index points into the registry, as every
/// reachable discovery state has it.
pub open spec fn cur_in_range(st: CuraScan) -> bool {
    match st.cur {
        Option::Some(i) => 0 <= i < st.reg.len(),
        Option::None => true,
    }
}

/// Two discovery states that differ at most in their point sets.
pub open spec fn scan_refines(st1: CuraScan, st2: CuraScan) -> bool {
    super::reg_refines(st1.reg, st2.reg) && st1.cur == st2.cur && st1.lte == st2.lte
}

/// Point collection keeps refinement: under a narrower filter the current
/// object takes at most the same points.
proof fn lemma_scan_tail_monotone(
    st1: CuraScan,
    st2: CuraScan,
    line: Seq<u8>,
    f1: LayerFilter,
    f2: LayerFilter,
)
    requires
        super::filter_le(f1, f2),
        scan_refines(st1, st2),
        cur_in_range(st1),
    ensures
        scan_refines(scan_tail(st1, line, f1), scan_tail(st2, line, f2)),
        cur_in_range(scan_tail(st1, line, f1)),
{
    match st1.cur {
        Option::Some(i) => {
            super::lemma_maybe_points_monotone(
                line,
                st1.reg[i].1.layer,
                st1.reg[i].1.points,
                st2.reg[i].1.points,
                f1,
                f2,
            );
            assert(super::reg_refines(
                collect_model(st1.reg, i, line, f1),
                collect_model(st2.reg, i, line, f2),
            )) by {
                assert(forall|k: int|
                    0 <= k < st1.reg.len() && k != i ==> collect_model(st1.reg, i, line, f1)[k]
                        == st1.reg[k] && collect_model(st2.reg, i, line, f2)[k] == st2.reg[k]);
            }
        },
        Option::None => {
        },
    }
}

/// One discovery step keeps refinement: under a narrower filter it
/// registers the same objects and collects at most the same points.
proof fn lemma_scan_step_monotone(
    st1: CuraScan,
    st2: CuraScan,
    line: Seq<u8>,
    f1: LayerFilter,
    f2: LayerFilter,
)
    requires
        super::filter_le(f1, f2),
        scan_refines(st1, st2),
        cur_in_range(st1),
    ensures
        scan_refines(scan_step(st1, line, f1), scan_step(st2, line, f2)),
        cur_in_range(scan_step(st1, line, f1)),
{
    if is_prefix(";MESH:".spec_bytes(), line) {
        match after_colon(line) {
            Option::None => {
                lemma_scan_tail_monotone(st1, st2, line, f1, f2);
            },
            Option::Some(id) => {
                if id == "NONMESH".spec_bytes() {
                } else {
                    super::lemma_reg_index_refines(st1.reg, st2.reg, id);
                    let a1 = if reg_index(st1.reg, id) < st1.reg.len() {
                        st1.reg
                    } else {
                        st1.reg.push(new_entry_model(id, id))
                    };
                    let a2 = if reg_index(st2.reg, id) < st2.reg.len() {
                        st2.reg
                    } else {
                        st2.reg.push(new_entry_model(id, id))
                    };
                    assert(super::reg_refines(a1, a2)) by {
                        if !(reg_index(st1.reg, id) < st1.reg.len()) {
                            assert(forall|k: int|
                                0 <= k < st1.reg.len() ==> a1[k] == st1.reg[k] && a2[k]
                                    == st2.reg[k]);
                            assert(a1[st1.reg.len() as int] == new_entry_model(id, id));
                            assert(a2[st2.reg.len() as int] == new_entry_model(id, id));
                        }
                    }
                    super::lemma_reg_index_refines(a1, a2, id);
                    let i = reg_index(a1, id);
                    assert(0 <= i < a1.len()) by {
                        lemma_reg_index(st1.reg, id);
                        if !(reg_index(st1.reg, id) < st1.reg.len()) {
                            lemma_reg_index_push(st1.reg, new_entry_model(id, id));
                        }
                    }
                    assert(super::reg_refines(bump_model(a1, i), bump_model(a2, i))) by {
                        assert(forall|k: int|
                            0 <= k < a1.len() && k != i ==> bump_model(a1, i)[k] == a1[k]
                                && bump_model(a2, i)[k] == a2[k]);
                    }
                    let mid1 = CuraScan {
                        reg: bump_model(a1, i),
                        cur: Option::Some(i),
                        lte: st1.lte,
                    };
                    let mid2 = CuraScan {
                        reg: bump_model(a2, i),
                        cur: Option::Some(i),
                        lte: st2.lte,
                    };
                    lemma_scan_tail_monotone(mid1, mid2, line, f1, f2);
                }
            },
        }
    } else {
        lemma_scan_tail_monotone(st1, st2, line, f1, f2);
    }
}

/// Restricting the layer filter cannot grow a hull: from refining states,
/// the discovery pass under a narrower filter names the same objects,
/// with the same layer counts, and holds for each a subset of the points
/// it collects under the wider filter.
pub proof fn lemma_scan_monotone(
    lines: Seq<Seq<u8>>,
    i: int,
    st1: CuraScan,
    st2: CuraScan,
    f1: LayerFilter,
    f2: LayerFilter,
)
    requires
        super::filter_le(f1, f2),
        scan_refines(st1, st2),
        cur_in_range(st1),
    ensures
        super::reg_refines(cura_scan(lines, i, st1, f1).reg, cura_scan(lines, i, st2, f2).reg),
    decreases lines.len() - i,
{
    if 0 <= i < lines.len() {
        lemma_scan_step_monotone(st1, st2, lines[i], f1, f2);
        lemma_scan_monotone(
            lines,
            i + 1,
            scan_step(st1, lines[i], f1),
            scan_step(st2, lines[i], f2),
            f1,
            f2,
        );
    }
}

/// Restricting the layer filter shrinks or keeps each object's point
/// set, never grows it: the discovery pass under a narrower filter finds
/// the same objects and, for each, a subset of the points found under
/// the wider filter. The outline built from those points can then only
/// shrink or stay.
pub proof fn lemma_narrower_filter_collects_subset(
    lines: Seq<Seq<u8>>,
    f1: LayerFilter,
    f2: LayerFilter,
)
    requires
        super::filter_le(f1, f2),
    ensures
        super::reg_refines(
            cura_scan(
                lines,
                0,
                CuraScan { reg: Seq::empty(), cur: Option::None, lte: Option::None },
                f1,
            ).reg,
            cura_scan(
                lines,
                0,
                CuraScan { reg: Seq::empty(), cur: Option::None, lte: Option::None },
                f2,
            ).reg,
        ),
{
    let init = CuraScan { reg: Seq::empty(), cur: Option::None, lte: Option::None };
    lemma_scan_monotone(lines, 0, init, init, f1, f2);
}

/// Point collection and time-stamp recording keep the registry ids
/// distinct.
proof fn lemma_scan_tail_ids_unique(st: CuraScan, line: Seq<u8>, f: LayerFilter)
    requires
        super::ids_unique(st.reg),
        cur_in_range(st),
    ensures
        super::ids_unique(scan_tail(st, line, f).reg),
        cur_in_range(scan_tail(st, line, f)),
{
    match st.cur {
        Option::Some(i) => {
            assert(forall|k: int|
                0 <= k < st.reg.len() ==> (#[trigger] collect_model(st.reg, i, line, f)[k]).0
                    == st.reg[k].0);
        },
        Option::None => {
        },
    }
}

/// One discovery step keeps the registry ids distinct: an object is
/// registered only when its id is not yet recorded.
proof fn lemma_scan_step_ids_unique(st: CuraScan, line: Seq<u8>, f: LayerFilter)
    requires
        super::ids_unique(st.reg),
        cur_in_range(st),
    ensures
        super::ids_unique(scan_step(st, line, f).reg),
        cur_in_range(scan_step(st, line, f)),
{
    if is_prefix(";MESH:".spec_bytes(), line) {
        match after_colon(line) {
            Option::None => {
                lemma_scan_tail_ids_unique(st, line, f);
            },
            Option::Some(id) => {
                if id == "NONMESH".spec_bytes() {
                } else {
                    lemma_reg_index(st.reg, id);
                    let m1 = if reg_index(st.reg, id) < st.reg.len() {
                        st.reg
                    } else {
                        st.reg.push(new_entry_model(id, id))
                    };
                    assert(super::ids_unique(m1)) by {
                        if !(reg_index(st.reg, id) < st.reg.len()) {
                            assert(forall|k: int| 0 <= k < st.reg.len() ==> m1[k] == st.reg[k]);
                            assert(m1[st.reg.len() as int].0 == id);
                            assert(forall|k: int|
                                0 <= k < st.reg.len() ==> (#[trigger] st.reg[k]).0 != id);
                        }
                    }
                    let i = reg_index(m1, id);
                    assert(0 <= i < m1.len()) by {
                        if !(reg_index(st.reg, id) < st.reg.len()) {
                            lemma_reg_index_push(st.reg, new_entry_model(id, id));
                        }
                    }
                    assert(super::ids_unique(bump_model(m1, i))) by {
                        assert(forall|k: int|
                            0 <= k < m1.len() ==> (#[trigger] bump_model(m1, i)[k]).0 == m1[k].0);
                    }
                    let mid = CuraScan {
                        reg: bump_model(m1, i),
                        cur: Option::Some(i),
                        lte: st.lte,
                    };
                    lemma_scan_tail_ids_unique(mid, line, f);
                }
            },
        }
    } else {
        lemma_scan_tail_ids_unique(st, line, f);
    }
}

/// The discovery pass keeps the registry ids distinct.
pub proof fn lemma_scan_ids_unique(lines: Seq<Seq<u8>>, i: int, st: CuraScan, f: LayerFilter)
    requires
        super::ids_unique(st.reg),
        cur_in_range(st),
    ensures
        super::ids_unique(cura_scan(lines, i, st, f).reg),
    decreases lines.len() - i,
{
    if 0 <= i < lines.len() {
        lemma_scan_step_ids_unique(st, lines[i], f);
        lemma_scan_ids_unique(lines, i + 1, scan_step(st, lines[i], f), f);
    }
}

/// The annotated emission adds no definition line.
proof fn lemma_emit_no_defines(
    lines: Seq<Seq<u8>>,
    i: int,
    reg: Seq<(Seq<u8>, ObjModel)>,
    lte: Option<Seq<u8>>,
    cur: Option<Seq<u8>>,
)
    requires
        super::no_define_lines(lines),
        0 <= i,
    ensures
        crate::gcode::count_pref(
            cura_emit(lines, i, reg, lte, cur),
            "EXCLUDE_OBJECT_DEFINE NAME=".spec_bytes(),
        ) == 0,
    decreases lines.len() - i,
{
    let p = "EXCLUDE_OBJECT_DEFINE NAME=".spec_bytes();
    if i >= lines.len() {
        match cur {
            Option::Some(n) => {
                assert(seq![end_marker(n)] =~= Seq::<Seq<u8>>::empty().push(end_marker(n)));
                crate::gcode::lemma_push_marker_keeps_defines(Seq::empty(), n);
            },
            Option::None => {
            },
        }
    } else {
        let (c, cur2) = emit_step(lines[i], reg, lte, cur);
        lemma_emit_no_defines(lines, i + 1, reg, lte, cur2);
        crate::gcode::lemma_count_pref_concat(c, cura_emit(lines, i + 1, reg, lte, cur2), p);
        let c0 = seq![line_chunk(lines[i])];
        crate::gcode::lemma_line_chunks_count_free(lines[i]);
        assert(crate::gcode::count_pref(c, p) == 0) by {
            let line = lines[i];
            if is_prefix(";MESH:".spec_bytes(), line) {
                let c1 = match cur {
                    Option::Some(n) => c0.push(end_marker(n)),
                    Option::None => c0,
                };
                match cur {
                    Option::Some(n) => {
                        crate::gcode::lemma_push_marker_keeps_defines(c0, n);
                    },
                    Option::None => {
                    },
                }
                match after_colon(line) {
                    Option::None => {
                    },
                    Option::Some(id) => {
                        if id == "NONMESH".spec_bytes() {
                        } else {
                            let fidx = reg_index(reg, id);
                            if fidx < reg.len() {
                                let opened = reg[fidx].1.name;
                                crate::gcode::lemma_push_marker_keeps_defines(c1, opened);
                                crate::gcode::lemma_push_marker_keeps_defines(
                                    c1.push(start_marker(opened)),
                                    opened,
                                );
                            }
                        }
                    },
                }
            } else {
                match (lte, cur) {
                    (Option::Some(l), Option::Some(n)) => {
                        if l == line {
                            crate::gcode::lemma_push_marker_keeps_defines(c0, n);
                        }
                    },
                    _ => {
                    },
                }
            }
        }
    }
}

/// Exactly one annotation header: for a file whose own lines carry no
/// definition word — as every file the driver hands to a processor does —
/// the whole output holds exactly one `EXCLUDE_OBJECT_DEFINE` chunk per
/// discovered object, all inside the single header block, and the
/// discovered ids are pairwise distinct. A file with no line to print
/// gets no header at all.
pub proof fn lemma_single_header(lines: Seq<Seq<u8>>, f: LayerFilter)
    requires
        super::no_define_lines(lines),
    ensures
        ({
            let st = cura_scan(
                lines,
                0,
                CuraScan { reg: Seq::empty(), cur: Option::None, lte: Option::None },
                f,
            );
            &&& super::ids_unique(st.reg)
            &&& crate::gcode::count_pref(
                cura_output(lines, f),
                "EXCLUDE_OBJECT_DEFINE NAME=".spec_bytes(),
            ) == if super::first_real(lines, 0) < lines.len() {
                st.reg.len() as int
            } else {
                0
            }
        }),
{
    let p = "EXCLUDE_OBJECT_DEFINE NAME=".spec_bytes();
    let init = CuraScan { reg: Seq::empty(), cur: Option::None, lte: Option::None };
    let st = cura_scan(lines, 0, init, f);
    super::lemma_first_real(lines, 0);
    lemma_scan_ids_unique(lines, 0, init, f);
    super::lemma_prelude_defines_count(lines, st.reg);
    lemma_emit_no_defines(lines, resume_at(lines), st.reg, st.lte, Option::None);
    crate::gcode::lemma_count_pref_concat(
        prelude_chunks(lines, st.reg),
        cura_emit(lines, resume_at(lines), st.reg, st.lte, Option::None),
        p,
    );
}

/// How one emission step shifts the start and end counts for any one
/// name: exactly in step with the object it leaves open.
proof fn lemma_emit_step_counts(
    line: Seq<u8>,
    reg: Seq<(Seq<u8>, ObjModel)>,
    lte: Option<Seq<u8>>,
    cur: Option<Seq<u8>>,
    n: Seq<u8>,
)
    requires
        !is_prefix("EXCLUDE_OBJECT_START NAME=".spec_bytes(), line),
        !is_prefix("EXCLUDE_OBJECT_END NAME=".spec_bytes(), line),
    ensures
        ({
            let (c, cur2) = emit_step(line, reg, lte, cur);
            count_eq(c, end_marker(n)) - (if cur == Option::Some(n) {
                1int
            } else {
                0
            }) == count_eq(c, start_marker(n)) - (if cur2 == Option::Some(n) {
                1int
            } else {
                0
            })
        }),
{
    let sm = start_marker(n);
    let em = end_marker(n);
    crate::gcode::lemma_line_chunk_not_marker(line, n);
    let c0 = seq![line_chunk(line)];
    crate::gcode::lemma_count_eq_single(line_chunk(line), sm);
    crate::gcode::lemma_count_eq_single(line_chunk(line), em);
    assert forall|name: Seq<u8>| true implies #[trigger] count_eq(c0.push(end_marker(name)), sm)
        == 0 by {
        crate::gcode::lemma_count_eq_push(c0, end_marker(name), sm);
        crate::gcode::lemma_start_end_markers_differ(n, name);
    }
    assert forall|name: Seq<u8>| true implies #[trigger] count_eq(c0.push(end_marker(name)), em)
        == (if name == n {
        1int
    } else {
        0
    }) by {
        crate::gcode::lemma_count_eq_push(c0, end_marker(name), em);
        crate::gcode::lemma_end_marker_eq(name, n);
    }
    if is_prefix(";MESH:".spec_bytes(), line) {
        let c1 = match cur {
            Option::Some(name) => c0.push(end_marker(name)),
            Option::None => c0,
        };
        match after_colon(line) {
            Option::None => {
            },
            Option::Some(id) => {
                if id == "NONMESH".spec_bytes() {
                } else {
                    let f = reg_index(reg, id);
                    if f < reg.len() {
                        let opened = reg[f].1.name;
                        let c2 = c1.push(start_marker(opened));
                        crate::gcode::lemma_count_eq_push(c1, start_marker(opened), sm);
                        crate::gcode::lemma_count_eq_push(c1, start_marker(opened), em);
                        crate::gcode::lemma_start_marker_eq(opened, n);
                        crate::gcode::lemma_start_end_markers_differ(opened, n);
                        crate::gcode::lemma_count_eq_push(c2, end_marker(opened), sm);
                        crate::gcode::lemma_count_eq_push(c2, end_marker(opened), em);
                        crate::gcode::lemma_start_end_markers_differ(n, opened);
                        crate::gcode::lemma_end_marker_eq(opened, n);
                    }
                }
            },
        }
    } else {
        match (lte, cur) {
            (Option::Some(l), Option::Some(name)) => {
                if l == line {
                    crate::gcode::lemma_count_eq_push(c0, end_marker(name), sm);
                    crate::gcode::lemma_count_eq_push(c0, end_marker(name), em);
                    crate::gcode::lemma_start_end_markers_differ(n, name);
                    crate::gcode::lemma_end_marker_eq(name, n);
                }
            },
            _ => {
            },
        }
    }
}

/// The annotated emission balances its markers: from lines `i..` with the
/// object `cur` open, every name gets exactly as many end markers as
/// start markers, plus one end for the object already open.
pub proof fn lemma_cura_emit_balanced(
    lines: Seq<Seq<u8>>,
    i: int,
    reg: Seq<(Seq<u8>, ObjModel)>,
    lte: Option<Seq<u8>>,
    cur: Option<Seq<u8>>,
    n: Seq<u8>,
)
    requires
        0 <= i,
        no_marker_lines(lines),
    ensures
        count_eq(cura_emit(lines, i, reg, lte, cur), end_marker(n)) == count_eq(
            cura_emit(lines, i, reg, lte, cur),
            start_marker(n),
        ) + (if cur == Option::Some(n) {
            1int
        } else {
            0
        }),
    decreases lines.len() - i,
{
    if i >= lines.len() {
        match cur {
            Option::Some(m) => {
                crate::gcode::lemma_count_eq_single(end_marker(m), end_marker(n));
                crate::gcode::lemma_count_eq_single(end_marker(m), start_marker(n));
                crate::gcode::lemma_end_marker_eq(m, n);
                crate::gcode::lemma_start_end_markers_differ(n, m);
            },
            Option::None => {
            },
        }
    } else {
        let (c, cur2) = emit_step(lines[i], reg, lte, cur);
        lemma_emit_step_counts(lines[i], reg, lte, cur, n);
        lemma_cura_emit_balanced(lines, i + 1, reg, lte, cur2, n);
        crate::gcode::lemma_count_eq_concat(c, cura_emit(lines, i + 1, reg, lte, cur2), end_marker(n));
        crate::gcode::lemma_count_eq_concat(
            c,
            cura_emit(lines, i + 1, reg, lte, cur2),
            start_marker(n),
        );
    }
}

/// Balanced annotation: for every object name, the whole Cura output
/// holds exactly as many `EXCLUDE_OBJECT_END` as `EXCLUDE_OBJECT_START`
/// chunks, for files whose own lines are not marker lines.
pub proof fn lemma_cura_output_balanced(lines: Seq<Seq<u8>>, f: LayerFilter, n: Seq<u8>)
    requires
        no_marker_lines(lines),
    ensures
        count_eq(cura_output(lines, f), start_marker(n)) == count_eq(
            cura_output(lines, f),
            end_marker(n),
        ),
{
    let st = cura_scan(
        lines,
        0,
        CuraScan { reg: Seq::empty(), cur: Option::None, lte: Option::None },
        f,
    );
    let rest = cura_emit(lines, resume_at(lines), st.reg, st.lte, Option::None);
    super::lemma_first_real(lines, 0);
    super::lemma_prelude_no_markers(lines, st.reg, n);
    lemma_cura_emit_balanced(lines, resume_at(lines), st.reg, st.lte, Option::None, n);
    crate::gcode::lemma_count_eq_concat(prelude_chunks(lines, st.reg), rest, start_marker(n));
    crate::gcode::lemma_count_eq_concat(prelude_chunks(lines, st.reg), rest, end_marker(n));
}

pub struct CuraProcessor {
}

impl CuraProcessor {
    pub fn new() -> (r: Self) {
        Self {  }
    }

    /// Two passes over the file's lines: discover the objects and their
    /// points, then re-emit the file with the header and the object
    /// start/end markers.
    pub fn process(&self, lines: &Vec<Vec<u8>>, layer_filter: &LayerFilter) -> (r: Vec<Vec<u8>>)
        requires
            layer_filter.wf(),
            lines@.len() <= isize::MAX,
        ensures
            r.deep_view() == cura_output(lines.deep_view(), *layer_filter),
    {
        let ghost lv = lines.deep_view();
        let ghost f = *layer_filter;
        let ghost init = CuraScan { reg: Seq::empty(), cur: Option::None, lte: Option::None };
        let mut registry: Vec<(Vec<u8>, KnownObject)> = Vec::new();
        let mut current: Option<usize> = Option::None;
        let mut last_time_elapsed: Option<Vec<u8>> = Option::None;
        let mut i: usize = 0;
        proof {
            assert(reg_model(registry@) =~= init.reg);
        }
        while i < lines.len()
            invariant
                i <= lv.len() == lines@.len(),
                lv.len() <= isize::MAX,
                f == *layer_filter,
                f.wf(),
                objects_wf(registry@),
                cura_scan(lv, 0, init, f) == cura_scan(
                    lv,
                    i as int,
                    CuraScan {
                        reg: reg_model(registry@),
                        cur: idx_opt(current),
                        lte: view_opt(last_time_elapsed),
                    },
                    f,
                ),
                forall|k: int|
                    0 <= k < reg_model(registry@).len() ==> -1 <= (#[trigger] reg_model(
                        registry@,
                    )[k]).1.layer < i as int,
                match current {
                    Option::Some(u) => u < registry@.len() && reg_model(
                        registry@,
                    )[u as int].1.layer >= 0,
                    Option::None => true,
                },
            decreases lv.len() - i,
        {
            let line = &lines[i];
            assert(line@ == lv[i as int]);
            let ghost st = CuraScan {
                reg: reg_model(registry@),
                cur: idx_opt(current),
                lte: view_opt(last_time_elapsed),
            };
            let mut skip = false;
            if starts_with(line, ";MESH:") {
                match split_after_colon(line) {
                    Option::None => {},
                    Option::Some(id) => {
                        if eq_str(&id, "NONMESH") {
                            skip = true;
                        } else {
                            let found = reg_find(&registry, &id);
                            proof {
                                lemma_reg_index(reg_model(registry@), id@);
                            }
                            let idx: usize;
                            if found == registry.len() {
                                reg_insert(&mut registry, &id, &id);
                                proof {
                                    lemma_reg_index_push(st.reg, new_entry_model(id@, id@));
                                }
                                idx = found;
                            } else {
                                idx = found;
                            }
                            assert(idx as int == reg_index(reg_model(registry@), id@));
                            assert(idx < registry@.len());
                            reg_bump(&mut registry, idx);
                            current = Option::Some(idx);
                        }
                    },
                }
            }
            if !skip {
                match current {
                    Option::Some(idx) => {
                        reg_collect(&mut registry, idx, line, layer_filter);
                    },
                    Option::None => {},
                }
                if starts_with(line, ";TIME_ELAPSED:") {
                    last_time_elapsed = Option::Some(copy_bytes(line));
                }
            }
            proof {
                let st2 = CuraScan {
                    reg: reg_model(registry@),
                    cur: idx_opt(current),
                    lte: view_opt(last_time_elapsed),
                };
                assert(st2 =~~= scan_step(st, lv[i as int], f));
            }
            i = i + 1;
        }
        let ghost fin = cura_scan(lv, 0, init, f);
        proof {
            assert(fin =~~= CuraScan {
                reg: reg_model(registry@),
                cur: idx_opt(current),
                lte: view_opt(last_time_elapsed),
            });
        }
        // Second pass: emit the prelude and header, then the annotated
        // remainder against the frozen registry.
        let mut out: Vec<Vec<u8>> = Vec::new();
        let mut j = emit_prelude(lines, &registry, &mut out);
        let mut open: Option<Vec<u8>> = Option::None;
        while j < lines.len()
            invariant
                resume_at(lv) <= j <= lv.len() == lines@.len(),
                fin.reg == reg_model(registry@),
                fin == cura_scan(lv, 0, init, f),
                fin.lte == view_opt(last_time_elapsed),
                out.deep_view() + cura_emit(
                    lv,
                    j as int,
                    fin.reg,
                    fin.lte,
                    view_opt(open),
                ) == prelude_chunks(lv, fin.reg) + cura_emit(
                    lv,
                    resume_at(lv),
                    fin.reg,
                    fin.lte,
                    Option::None,
                ),
            decreases lv.len() - j,
        {
            let line = &lines[j];
            assert(line@ == lv[j as int]);
            let ghost cur0: Option<Seq<u8>> = view_opt(open);
            let ghost out0 = out.deep_view();
            push_line_chunk(&mut out, line);
            let mut skip = false;
            if starts_with(line, ";MESH:") {
                match &open {
                    Option::Some(n) => {
                        let e = crate::gcode::exclude_object_end(n);
                        let ghost prev = out.deep_view();
                        out.push(e);
                        proof {
                            assert(out.deep_view() =~~= prev.push(end_marker(cur0.unwrap())));
                        }
                        open = Option::None;
                    },
                    Option::None => {},
                }
                match split_after_colon(line) {
                    Option::None => {},
                    Option::Some(id) => {
                        if eq_str(&id, "NONMESH") {
                            skip = true;
                        } else {
                            proof {
                                lemma_reg_index(fin.reg, id@);
                            }
                            let found = reg_find(&registry, &id);
                            if found < registry.len() {
                                let name = copy_bytes(&registry[found].1.name);
                                let sm = crate::gcode::exclude_object_start(&name);
                                let ghost prev = out.deep_view();
                                out.push(sm);
                                proof {
                                    assert(out.deep_view() =~~= prev.push(
                                        start_marker(fin.reg[found as int].1.name),
                                    ));
                                }
                                open = Option::Some(name);
                            } else {
                                open = Option::None;
                            }
                        }
                    },
                }
            }
            if !skip {
                let hit = match &last_time_elapsed {
                    Option::Some(l) => bytes_eq(l, line),
                    Option::None => false,
                };
                if hit {
                    match &open {
                        Option::Some(n) => {
                            let e = crate::gcode::exclude_object_end(n);
                            let ghost prev = out.deep_view();
                            let ghost nv = n@;
                            out.push(e);
                            proof {
                                assert(out.deep_view() =~~= prev.push(end_marker(nv)));
                            }
                            open = Option::None;
                        },
                        Option::None => {},
                    }
                }
            }
            proof {
                let (c, cur2) = emit_step(lv[j as int], fin.reg, fin.lte, cur0);
                assert(out.deep_view() =~= out0 + c);
                assert(cur2 == view_opt(open));
            }
            j = j + 1;
        }
        match &open {
            Option::Some(n) => {
                let e = crate::gcode::exclude_object_end(n);
                let ghost prev = out.deep_view();
                let ghost nv = n@;
                out.push(e);
                proof {
                    assert(out.deep_view() =~~= prev.push(end_marker(nv)));
                    assert(out.deep_view() =~= prelude_chunks(lv, fin.reg) + cura_emit(
                        lv,
                        resume_at(lv),
                        fin.reg,
                        fin.lte,
                        Option::None,
                    ));
                }
            },
            Option::None => {
                proof {
                    assert(out.deep_view() =~= prelude_chunks(lv, fin.reg) + cura_emit(
                        lv,
                        resume_at(lv),
                        fin.reg,
                        fin.lte,
                        Option::None,
                    ));
                }
            },
        }
        out
    }
}

} // verus!
