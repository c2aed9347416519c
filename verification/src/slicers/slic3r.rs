//! The two-pass processor for the Slic3r family: Slic3r, PrusaSlicer,
//! SuperSlicer and OrcaSlicer all mark object boundaries with literal
//! `; printing object <id>` and `; stop printing object <id>` comments.
//! The emission pass closes the open object before opening the next one,
//! and closes an object still open when the stream ends.

use vstd::prelude::*;

verus! {

use vstd::string::StringSliceAdditionalSpecFns;
use crate::gcode::{end_marker, line_chunk, push_line_chunk, start_marker};
use crate::hulls::{KnownObject, ObjModel, reg_model};
use crate::layers::LayerFilter;
use crate::text::{is_prefix, starts_with};
use super::{
    after_pattern, bump_model, ids_unique, collect_model, emit_prelude, idx_opt, lemma_reg_index,
    lemma_reg_index_push, new_entry_model, objects_wf, prelude_chunks, reg_bump, reg_collect,
    reg_find, reg_index, reg_insert, resume_at, split_after_pattern, view_opt,
};

/// The discovery pass state: the registry and the entry now printing.
#[verifier::ext_equal]
pub struct Slic3rScan {
    pub reg: Seq<(Seq<u8>, ObjModel)>,
    pub cur: Option<int>,
}

/// One line of the discovery pass: enter an object on `; printing object`,
/// leave it on `; stop printing object`, then collect the line's point.
pub open spec fn scan_step(st: Slic3rScan, line: Seq<u8>, f: LayerFilter) -> Slic3rScan {
    let st1 = if is_prefix("; printing object ".spec_bytes(), line) {
        match after_pattern(line, "printing object".spec_bytes()) {
            Option::None => st,
            Option::Some(id) => {
                let m1 = if reg_index(st.reg, id) < st.reg.len() {
                    st.reg
                } else {
                    st.reg.push(new_entry_model(id, id))
                };
                let i = reg_index(m1, id);
                Slic3rScan { reg: bump_model(m1, i), cur: Option::Some(i) }
            },
        }
    } else {
        st
    };
    let st2 = if is_prefix("; stop printing object ".spec_bytes(), line) {
        Slic3rScan { reg: st1.reg, cur: Option::None }
    } else {
        st1
    };
    match st2.cur {
        Option::Some(i) => Slic3rScan { reg: collect_model(st2.reg, i, line, f), cur: st2.cur },
        Option::None => st2,
    }
}

/// The discovery pass over lines `i..`.
pub open spec fn slic3r_scan(
    lines: Seq<Seq<u8>>,
    i: int,
    st: Slic3rScan,
    f: LayerFilter,
) -> Slic3rScan
    decreases lines.len() - i,
{
    if i < 0 || i >= lines.len() {
        st
    } else {
        slic3r_scan(lines, i + 1, scan_step(st, lines[i], f), f)
    }
}

/// One line of the annotated emission pass: the chunks it produces and
/// the object left open. A printing comment first closes the open object,
/// then opens the one its id names in the frozen registry; a stop comment
/// closes the open object.
pub open spec fn emit_step(
    line: Seq<u8>,
    reg: Seq<(Seq<u8>, ObjModel)>,
    cur: Option<Seq<u8>>,
) -> (Seq<Seq<u8>>, Option<Seq<u8>>) {
    let c0 = seq![line_chunk(line)];
    if is_prefix("; printing object ".spec_bytes(), line) {
        let c1 = match cur {
            Option::Some(n) => c0.push(end_marker(n)),
            Option::None => c0,
        };
        match after_pattern(line, "printing object".spec_bytes()) {
            Option::Some(id) => {
                let fidx = reg_index(reg, id);
                if fidx < reg.len() {
                    (c1.push(start_marker(reg[fidx].1.name)), Option::Some(reg[fidx].1.name))
                } else {
                    (c1, Option::None)
                }
            },
            Option::None => (c1, Option::None),
        }
    } else if is_prefix("; stop printing object ".spec_bytes(), line) {
        match cur {
            Option::Some(n) => (c0.push(end_marker(n)), Option::None),
            Option::None => (c0, Option::None),
        }
    } else {
        (c0, cur)
    }
}

/// The annotated emission of lines `i..`, closing any open object at the
/// end of the stream.
pub open spec fn slic3r_emit(
    lines: Seq<Seq<u8>>,
    i: int,
    reg: Seq<(Seq<u8>, ObjModel)>,
    cur: Option<Seq<u8>>,
) -> Seq<Seq<u8>>
    decreases lines.len() - i,
{
    if i < 0 || i >= lines.len() {
        match cur {
            Option::Some(n) => seq![end_marker(n)],
            Option::None => Seq::empty(),
        }
    } else {
        let (c, cur2) = emit_step(lines[i], reg, cur);
        c + slic3r_emit(lines, i + 1, reg, cur2)
    }
}

/// Everything the processor emits for the file.
pub open spec fn slic3r_output(lines: Seq<Seq<u8>>, f: LayerFilter) -> Seq<Seq<u8>> {
    let st = slic3r_scan(lines, 0, Slic3rScan { reg: Seq::empty(), cur: Option::None }, f);
    prelude_chunks(lines, st.reg) + slic3r_emit(lines, resume_at(lines), st.reg, Option::None)
}

/// How one emission step shifts the start and end counts for any one
/// name: exactly in step with the object it leaves open.
proof fn lemma_emit_step_counts(
    line: Seq<u8>,
    reg: Seq<(Seq<u8>, ObjModel)>,
    cur: Option<Seq<u8>>,
    n: Seq<u8>,
)
    requires
        !is_prefix("EXCLUDE_OBJECT_START NAME=".spec_bytes(), line),
        !is_prefix("EXCLUDE_OBJECT_END NAME=".spec_bytes(), line),
    ensures
        ({
            let (c, cur2) = emit_step(line, reg, cur);
            crate::gcode::count_eq(c, end_marker(n)) - (if cur == Option::Some(n) {
                1int
            } else {
                0
            }) == crate::gcode::count_eq(c, start_marker(n)) - (if cur2 == Option::Some(n) {
                1int
            } else {
                0
            })
        }),
{
    let sm = start_marker(n);
    let em = end_marker(n);
    crate::gcode::lemma_line_chunk_not_marker(line, n);
    let c0 = seq![line_chunk(line)];
    crate::gcode::lemma_count_eq_single(line_chunk(line), sm);
    crate::gcode::lemma_count_eq_single(line_chunk(line), em);
    if is_prefix("; printing object ".spec_bytes(), line) {
        let c1 = match cur {
            Option::Some(name) => c0.push(end_marker(name)),
            Option::None => c0,
        };
        match cur {
            Option::Some(name) => {
                crate::gcode::lemma_count_eq_push(c0, end_marker(name), sm);
                crate::gcode::lemma_count_eq_push(c0, end_marker(name), em);
                crate::gcode::lemma_start_end_markers_differ(n, name);
                crate::gcode::lemma_end_marker_eq(name, n);
            },
            Option::None => {
            },
        }
        match after_pattern(line, "printing object".spec_bytes()) {
            Option::Some(id) => {
                let fidx = reg_index(reg, id);
                if fidx < reg.len() {
                    let opened = reg[fidx].1.name;
                    crate::gcode::lemma_count_eq_push(c1, start_marker(opened), sm);
                    crate::gcode::lemma_count_eq_push(c1, start_marker(opened), em);
                    crate::gcode::lemma_start_marker_eq(opened, n);
                    crate::gcode::lemma_start_end_markers_differ(opened, n);
                }
            },
            Option::None => {
            },
        }
    } else if is_prefix("; stop printing object ".spec_bytes(), line) {
        match cur {
            Option::Some(name) => {
                crate::gcode::lemma_count_eq_push(c0, end_marker(name), sm);
                crate::gcode::lemma_count_eq_push(c0, end_marker(name), em);
                crate::gcode::lemma_start_end_markers_differ(n, name);
                crate::gcode::lemma_end_marker_eq(name, n);
            },
            Option::None => {
            },
        }
    }
}

/// The annotated emission balances its markers: from lines `i..` with the
/// object `cur` open, every name gets exactly as many end markers as
/// start markers, plus one end for the object already open.
pub proof fn lemma_slic3r_emit_balanced(
    lines: Seq<Seq<u8>>,
    i: int,
    reg: Seq<(Seq<u8>, ObjModel)>,
    cur: Option<Seq<u8>>,
    n: Seq<u8>,
)
    requires
        0 <= i,
        crate::gcode::no_marker_lines(lines),
    ensures
        crate::gcode::count_eq(slic3r_emit(lines, i, reg, cur), end_marker(n))
            == crate::gcode::count_eq(slic3r_emit(lines, i, reg, cur), start_marker(n)) + (if cur
            == Option::Some(n) {
            1int
        } else {
            0
        }),
    decreases lines.len() - i,
{
    if i >= lines.len() {
        match cur {
            Option::Some(m) => {
                crate::gcode::lemma_count_eq_single(end_marker(m), end_marker(n));
                crate::gcode::lemma_count_eq_single(end_marker(m), start_marker(n));
                crate::gcode::lemma_end_marker_eq(m, n);
                crate::gcode::lemma_start_end_markers_differ(n, m);
            },
            Option::None => {
            },
        }
    } else {
        let (c, cur2) = emit_step(lines[i], reg, cur);
        lemma_emit_step_counts(lines[i], reg, cur, n);
        lemma_slic3r_emit_balanced(lines, i + 1, reg, cur2, n);
        crate::gcode::lemma_count_eq_concat(c, slic3r_emit(lines, i + 1, reg, cur2), end_marker(n));
        crate::gcode::lemma_count_eq_concat(
            c,
            slic3r_emit(lines, i + 1, reg, cur2),
            start_marker(n),
        );
    }
}

/// Balanced annotation: for every object name, the whole Slic3r-family
/// output holds exactly as many `EXCLUDE_OBJECT_END` as
/// `EXCLUDE_OBJECT_START` chunks, for files whose own lines are not
/// marker lines.
pub proof fn lemma_slic3r_output_balanced(lines: Seq<Seq<u8>>, f: LayerFilter, n: Seq<u8>)
    requires
        crate::gcode::no_marker_lines(lines),
    ensures
        crate::gcode::count_eq(slic3r_output(lines, f), start_marker(n)) == crate::gcode::count_eq(
            slic3r_output(lines, f),
            end_marker(n),
        ),
{
    let st = slic3r_scan(lines, 0, Slic3rScan { reg: Seq::empty(), cur: Option::None }, f);
    let rest = slic3r_emit(lines, resume_at(lines), st.reg, Option::None);
    super::lemma_first_real(lines, 0);
    super::lemma_prelude_no_markers(lines, st.reg, n);
    lemma_slic3r_emit_balanced(lines, resume_at(lines), st.reg, Option::None, n);
    crate::gcode::lemma_count_eq_concat(prelude_chunks(lines, st.reg), rest, start_marker(n));
    crate::gcode::lemma_count_eq_concat(prelude_chunks(lines, st.reg), rest, end_marker(n));
}

/// Whether the current-object index points into the registry, as every
/// reachable discovery state has it.
pub open spec fn cur_in_range(st: Slic3rScan) -> bool {
    match st.cur {
        Option::Some(i) => 0 <= i < st.reg.len(),
        Option::None => true,
    }
}

/// One discovery step keeps refinement: under a narrower filter it
/// registers the same objects and collects at most the same points.
proof fn lemma_scan_step_monotone(
    st1: Slic3rScan,
    st2: Slic3rScan,
    line: Seq<u8>,
    f1: LayerFilter,
    f2: LayerFilter,
)
    requires
        super::filter_le(f1, f2),
        super::reg_refines(st1.reg, st2.reg),
        st1.cur == st2.cur,
        cur_in_range(st1),
    ensures
        super::reg_refines(scan_step(st1, line, f1).reg, scan_step(st2, line, f2).reg),
        scan_step(st1, line, f1).cur == scan_step(st2, line, f2).cur,
        cur_in_range(scan_step(st1, line, f1)),
{
    if is_prefix("; printing object ".spec_bytes(), line) {
        match after_pattern(line, "printing object".spec_bytes()) {
            Option::None => {
            },
            Option::Some(id) => {
                super::lemma_reg_index_refines(st1.reg, st2.reg, id);
                let a1 = if reg_index(st1.reg, id) < st1.reg.len() {
                    st1.reg
                } else {
                    st1.reg.push(new_entry_model(id, id))
                };
                let a2 = if reg_index(st2.reg, id) < st2.reg.len() {
                    st2.reg
                } else {
                    st2.reg.push(new_entry_model(id, id))
                };
                assert(super::reg_refines(a1, a2)) by {
                    if !(reg_index(st1.reg, id) < st1.reg.len()) {
                        assert(forall|k: int|
                            0 <= k < st1.reg.len() ==> a1[k] == st1.reg[k] && a2[k] == st2.reg[k]);
                        assert(a1[st1.reg.len() as int] == new_entry_model(id, id));
                        assert(a2[st2.reg.len() as int] == new_entry_model(id, id));
                    }
                }
                super::lemma_reg_index_refines(a1, a2, id);
                let i = reg_index(a1, id);
                assert(0 <= i < a1.len()) by {
                    lemma_reg_index(st1.reg, id);
                    if !(reg_index(st1.reg, id) < st1.reg.len()) {
                        lemma_reg_index_push(st1.reg, new_entry_model(id, id));
                    }
                }
                assert(super::reg_refines(bump_model(a1, i), bump_model(a2, i))) by {
                    assert(forall|k: int|
                        0 <= k < a1.len() && k != i ==> bump_model(a1, i)[k] == a1[k] && bump_model(
                            a2,
                            i,
                        )[k] == a2[k]);
                }
            },
        }
    }
    let s1 = if is_prefix("; printing object ".spec_bytes(), line) {
        match after_pattern(line, "printing object".spec_bytes()) {
            Option::None => st1,
            Option::Some(id) => {
                let m1 = if reg_index(st1.reg, id) < st1.reg.len() {
                    st1.reg
                } else {
                    st1.reg.push(new_entry_model(id, id))
                };
                Slic3rScan { reg: bump_model(m1, reg_index(m1, id)), cur: Option::Some(reg_index(m1, id)) }
            },
        }
    } else {
        st1
    };
    let s2 = if is_prefix("; printing object ".spec_bytes(), line) {
        match after_pattern(line, "printing object".spec_bytes()) {
            Option::None => st2,
            Option::Some(id) => {
                let m2 = if reg_index(st2.reg, id) < st2.reg.len() {
                    st2.reg
                } else {
                    st2.reg.push(new_entry_model(id, id))
                };
                Slic3rScan { reg: bump_model(m2, reg_index(m2, id)), cur: Option::Some(reg_index(m2, id)) }
            },
        }
    } else {
        st2
    };
    assert(super::reg_refines(s1.reg, s2.reg) && s1.cur == s2.cur);
    let t1 = if is_prefix("; stop printing object ".spec_bytes(), line) {
        Slic3rScan { reg: s1.reg, cur: Option::None }
    } else {
        s1
    };
    let t2 = if is_prefix("; stop printing object ".spec_bytes(), line) {
        Slic3rScan { reg: s2.reg, cur: Option::None }
    } else {
        s2
    };
    match t1.cur {
        Option::Some(i) => {
            assert(0 <= i < t1.reg.len() ==> super::reg_refines(
                collect_model(t1.reg, i, line, f1),
                collect_model(t2.reg, i, line, f2),
            )) by {
                if 0 <= i < t1.reg.len() {
                    super::lemma_maybe_points_monotone(
                        line,
                        t1.reg[i].1.layer,
                        t1.reg[i].1.points,
                        t2.reg[i].1.points,
                        f1,
                        f2,
                    );
                    assert(forall|k: int|
                        0 <= k < t1.reg.len() && k != i ==> collect_model(t1.reg, i, line, f1)[k]
                            == t1.reg[k] && collect_model(t2.reg, i, line, f2)[k] == t2.reg[k]);
                }
            }
        },
        Option::None => {
        },
    }
}

/// Restricting the layer filter cannot grow a hull: the registry the
/// discovery pass builds under a narrower filter names the same objects,
/// with the same layer counts, and holds for each a subset of the points
/// it collects under the wider filter.
pub proof fn lemma_scan_monotone(
    lines: Seq<Seq<u8>>,
    i: int,
    st1: Slic3rScan,
    st2: Slic3rScan,
    f1: LayerFilter,
    f2: LayerFilter,
)
    requires
        super::filter_le(f1, f2),
        super::reg_refines(st1.reg, st2.reg),
        st1.cur == st2.cur,
        cur_in_range(st1),
    ensures
        super::reg_refines(
            slic3r_scan(lines, i, st1, f1).reg,
            slic3r_scan(lines, i, st2, f2).reg,
        ),
    decreases lines.len() - i,
{
    if 0 <= i < lines.len() {
        lemma_scan_step_monotone(st1, st2, lines[i], f1, f2);
        lemma_scan_monotone(
            lines,
            i + 1,
            scan_step(st1, lines[i], f1),
            scan_step(st2, lines[i], f2),
            f1,
            f2,
        );
    }
}

/// One discovery step keeps the registry ids distinct: an object is
/// registered only when its id is not yet recorded.
proof fn lemma_scan_step_ids_unique(st: Slic3rScan, line: Seq<u8>, f: LayerFilter)
    requires
        ids_unique(st.reg),
        cur_in_range(st),
    ensures
        ids_unique(scan_step(st, line, f).reg),
        cur_in_range(scan_step(st, line, f)),
{
    let s1 = if is_prefix("; printing object ".spec_bytes(), line) {
        match after_pattern(line, "printing object".spec_bytes()) {
            Option::None => st,
            Option::Some(id) => {
                let m1 = if reg_index(st.reg, id) < st.reg.len() {
                    st.reg
                } else {
                    st.reg.push(new_entry_model(id, id))
                };
                Slic3rScan { reg: bump_model(m1, reg_index(m1, id)), cur: Option::Some(reg_index(m1, id)) }
            },
        }
    } else {
        st
    };
    assert(ids_unique(s1.reg) && cur_in_range(s1)) by {
        if is_prefix("; printing object ".spec_bytes(), line) {
            match after_pattern(line, "printing object".spec_bytes()) {
                Option::None => {
                },
                Option::Some(id) => {
                    lemma_reg_index(st.reg, id);
                    let m1 = if reg_index(st.reg, id) < st.reg.len() {
                        st.reg
                    } else {
                        st.reg.push(new_entry_model(id, id))
                    };
                    assert(ids_unique(m1)) by {
                        if !(reg_index(st.reg, id) < st.reg.len()) {
                            assert(forall|k: int| 0 <= k < st.reg.len() ==> m1[k] == st.reg[k]);
                            assert(m1[st.reg.len() as int].0 == id);
                            assert(forall|k: int|
                                0 <= k < st.reg.len() ==> (#[trigger] st.reg[k]).0 != id);
                        }
                    }
                    let i = reg_index(m1, id);
                    assert(0 <= i < m1.len()) by {
                        if !(reg_index(st.reg, id) < st.reg.len()) {
                            lemma_reg_index_push(st.reg, new_entry_model(id, id));
                        }
                    }
                    assert(ids_unique(bump_model(m1, i))) by {
                        assert(forall|k: int|
                            0 <= k < m1.len() ==> (#[trigger] bump_model(m1, i)[k]).0 == m1[k].0);
                    }
                },
            }
        }
    }
    let s2 = if is_prefix("; stop printing object ".spec_bytes(), line) {
        Slic3rScan { reg: s1.reg, cur: Option::None }
    } else {
        s1
    };
    match s2.cur {
        Option::Some(i) => {
            assert(ids_unique(collect_model(s2.reg, i, line, f))) by {
                assert(forall|k: int|
                    0 <= k < s2.reg.len() ==> (#[trigger] collect_model(s2.reg, i, line, f)[k]).0
                        == s2.reg[k].0);
            }
        },
        Option::None => {
        },
    }
}

/// The discovery pass keeps the registry ids distinct.
pub proof fn lemma_scan_ids_unique(lines: Seq<Seq<u8>>, i: int, st: Slic3rScan, f: LayerFilter)
    requires
        ids_unique(st.reg),
        cur_in_range(st),
    ensures
        ids_unique(slic3r_scan(lines, i, st, f).reg),
    decreases lines.len() - i,
{
    if 0 <= i < lines.len() {
        lemma_scan_step_ids_unique(st, lines[i], f);
        lemma_scan_ids_unique(lines, i + 1, scan_step(st, lines[i], f), f);
    }
}

/// The annotated emission adds no definition line.
proof fn lemma_emit_no_defines(
    lines: Seq<Seq<u8>>,
    i: int,
    reg: Seq<(Seq<u8>, ObjModel)>,
    cur: Option<Seq<u8>>,
)
    requires
        super::no_define_lines(lines),
        0 <= i,
    ensures
        crate::gcode::count_pref(
            slic3r_emit(lines, i, reg, cur),
            "EXCLUDE_OBJECT_DEFINE NAME=".spec_bytes(),
        ) == 0,
    decreases lines.len() - i,
{
    let p = "EXCLUDE_OBJECT_DEFINE NAME=".spec_bytes();
    if i >= lines.len() {
        match cur {
            Option::Some(n) => {
                assert(seq![end_marker(n)] =~= Seq::<Seq<u8>>::empty().push(end_marker(n)));
                crate::gcode::lemma_push_marker_keeps_defines(Seq::empty(), n);
            },
            Option::None => {
            },
        }
    } else {
        let (c, cur2) = emit_step(lines[i], reg, cur);
        lemma_emit_no_defines(lines, i + 1, reg, cur2);
        crate::gcode::lemma_count_pref_concat(c, slic3r_emit(lines, i + 1, reg, cur2), p);
        let c0 = seq![line_chunk(lines[i])];
        crate::gcode::lemma_line_chunks_count_free(lines[i]);
        assert(crate::gcode::count_pref(c, p) == 0) by {
            let line = lines[i];
            if is_prefix("; printing object ".spec_bytes(), line) {
                let c1 = match cur {
                    Option::Some(n) => c0.push(end_marker(n)),
                    Option::None => c0,
                };
                match cur {
                    Option::Some(n) => {
                        crate::gcode::lemma_push_marker_keeps_defines(c0, n);
                    },
                    Option::None => {
                    },
                }
                match after_pattern(line, "printing object".spec_bytes()) {
                    Option::Some(id) => {
                        let fidx = reg_index(reg, id);
                        if fidx < reg.len() {
                            crate::gcode::lemma_push_marker_keeps_defines(c1, reg[fidx].1.name);
                        }
                    },
                    Option::None => {
                    },
                }
            } else if is_prefix("; stop printing object ".spec_bytes(), line) {
                match cur {
                    Option::Some(n) => {
                        crate::gcode::lemma_push_marker_keeps_defines(c0, n);
                    },
                    Option::None => {
                    },
                }
            }
        }
    }
}

/// Exactly one annotation header: for a file whose own lines carry no
/// definition word — as every file the driver hands to a processor does —
/// the whole output holds exactly one `EXCLUDE_OBJECT_DEFINE` chunk per
/// discovered object, all inside the single header block, and the
/// discovered ids are pairwise distinct. A file with no line to print
/// gets no header at all.
pub proof fn lemma_single_header(lines: Seq<Seq<u8>>, f: LayerFilter)
    requires
        super::no_define_lines(lines),
    ensures
        ({
            let st = slic3r_scan(
                lines,
                0,
                Slic3rScan { reg: Seq::empty(), cur: Option::None },
                f,
            );
            &&& ids_unique(st.reg)
            &&& crate::gcode::count_pref(
                slic3r_output(lines, f),
                "EXCLUDE_OBJECT_DEFINE NAME=".spec_bytes(),
            ) == if super::first_real(lines, 0) < lines.len() {
                st.reg.len() as int
            } else {
                0
            }
        }),
{
    let p = "EXCLUDE_OBJECT_DEFINE NAME=".spec_bytes();
    let init = Slic3rScan { reg: Seq::empty(), cur: Option::None };
    let st = slic3r_scan(lines, 0, init, f);
    super::lemma_first_real(lines, 0);
    lemma_scan_ids_unique(lines, 0, init, f);
    super::lemma_prelude_defines_count(lines, st.reg);
    lemma_emit_no_defines(lines, resume_at(lines), st.reg, Option::None);
    crate::gcode::lemma_count_pref_concat(
        prelude_chunks(lines, st.reg),
        slic3r_emit(lines, resume_at(lines), st.reg, Option::None),
        p,
    );
}

/// Restricting the layer filter shrinks or keeps each object's point
/// set, never grows it: the discovery pass under a narrower filter finds
/// the same objects and, for each, a subset of the points found under
/// the wider filter. The outline built from those points can then only
/// shrink or stay.
pub proof fn lemma_narrower_filter_collects_subset(
    lines: Seq<Seq<u8>>,
    f1: LayerFilter,
    f2: LayerFilter,
)
    requires
        super::filter_le(f1, f2),
    ensures
        super::reg_refines(
            slic3r_scan(lines, 0, Slic3rScan { reg: Seq::empty(), cur: Option::None }, f1).reg,
            slic3r_scan(lines, 0, Slic3rScan { reg: Seq::empty(), cur: Option::None }, f2).reg,
        ),
{
    let init = Slic3rScan { reg: Seq::empty(), cur: Option::None };
    lemma_scan_monotone(lines, 0, init, init, f1, f2);
}

pub struct Slic3rProcessor {
}

impl Slic3rProcessor {
    pub fn new() -> (r: Self) {
        Self {  }
    }

    /// Two passes over the file's lines: discover the objects and their
    /// points, then re-emit the file with the header and the object
    /// start/end markers.
    pub fn process(&self, lines: &Vec<Vec<u8>>, layer_filter: &LayerFilter) -> (r: Vec<Vec<u8>>)
        requires
            layer_filter.wf(),
            lines@.len() <= isize::MAX,
        ensures
            r.deep_view() == slic3r_output(lines.deep_view(), *layer_filter),
    {
        let ghost lv = lines.deep_view();
        let ghost f = *layer_filter;
        let ghost init = Slic3rScan { reg: Seq::empty(), cur: Option::None };
        let mut registry: Vec<(Vec<u8>, KnownObject)> = Vec::new();
        let mut current: Option<usize> = Option::None;
        let mut i: usize = 0;
        proof {
            assert(reg_model(registry@) =~= init.reg);
        }
        while i < lines.len()
            invariant
                i <= lv.len() == lines@.len(),
                lv.len() <= isize::MAX,
                f == *layer_filter,
                f.wf(),
                objects_wf(registry@),
                slic3r_scan(lv, 0, init, f) == slic3r_scan(
                    lv,
                    i as int,
                    Slic3rScan { reg: reg_model(registry@), cur: idx_opt(current) },
                    f,
                ),
                forall|k: int|
                    0 <= k < reg_model(registry@).len() ==> -1 <= (#[trigger] reg_model(
                        registry@,
                    )[k]).1.layer < i as int,
                match current {
                    Option::Some(u) => u < registry@.len() && reg_model(
                        registry@,
                    )[u as int].1.layer >= 0,
                    Option::None => true,
                },
            decreases lv.len() - i,
        {
            let line = &lines[i];
            assert(line@ == lv[i as int]);
            let ghost st = Slic3rScan { reg: reg_model(registry@), cur: idx_opt(current) };
            if starts_with(line, "; printing object ") {
                match split_after_pattern(line, "printing object") {
                    Option::None => {},
                    Option::Some(id) => {
                        let found = reg_find(&registry, &id);
                        proof {
                            lemma_reg_index(reg_model(registry@), id@);
                        }
                        let idx: usize;
                        if found == registry.len() {
                            reg_insert(&mut registry, &id, &id);
                            proof {
                                lemma_reg_index_push(st.reg, new_entry_model(id@, id@));
                            }
                            idx = found;
                        } else {
                            idx = found;
                        }
                        assert(reg_model(registry@).len() == registry@.len());
                        assert(idx as int == reg_index(reg_model(registry@), id@));
                        assert(idx < registry@.len());
                        reg_bump(&mut registry, idx);
                        current = Option::Some(idx);
                    },
                }
            }
            if starts_with(line, "; stop printing object ") {
                current = Option::None;
            }
            match current {
                Option::Some(idx) => {
                    reg_collect(&mut registry, idx, line, layer_filter);
                },
                Option::None => {},
            }
            proof {
                let st2 = Slic3rScan { reg: reg_model(registry@), cur: idx_opt(current) };
                assert(st2 =~~= scan_step(st, lv[i as int], f));
            }
            i = i + 1;
        }
        let ghost fin = slic3r_scan(lv, 0, init, f);
        proof {
            assert(fin =~~= Slic3rScan { reg: reg_model(registry@), cur: idx_opt(current) });
        }
        // Second pass: the prelude and header, then the annotated
        // remainder against the frozen registry, closing the open object
        // before each new start and once more at the end of the stream.
        let mut out: Vec<Vec<u8>> = Vec::new();
        let mut j = emit_prelude(lines, &registry, &mut out);
        let mut open: Option<Vec<u8>> = Option::None;
        while j < lines.len()
            invariant
                resume_at(lv) <= j <= lv.len() == lines@.len(),
                fin.reg == reg_model(registry@),
                fin == slic3r_scan(lv, 0, init, f),
                out.deep_view() + slic3r_emit(lv, j as int, fin.reg, view_opt(open))
                    == prelude_chunks(lv, fin.reg) + slic3r_emit(
                    lv,
                    resume_at(lv),
                    fin.reg,
                    Option::None,
                ),
            decreases lv.len() - j,
        {
            let line = &lines[j];
            assert(line@ == lv[j as int]);
            let ghost cur0: Option<Seq<u8>> = view_opt(open);
            let ghost out0 = out.deep_view();
            push_line_chunk(&mut out, line);
            if starts_with(line, "; printing object ") {
                match &open {
                    Option::Some(n) => {
                        let em = crate::gcode::exclude_object_end(n);
                        let ghost prev = out.deep_view();
                        let ghost nv = n@;
                        out.push(em);
                        proof {
                            assert(out.deep_view() =~~= prev.push(end_marker(nv)));
                        }
                        open = Option::None;
                    },
                    Option::None => {},
                }
                match split_after_pattern(line, "printing object") {
                    Option::None => {
                        open = Option::None;
                    },
                    Option::Some(id) => {
                        proof {
                            lemma_reg_index(fin.reg, id@);
                        }
                        let found = reg_find(&registry, &id);
                        if found < registry.len() {
                            let name = crate::text::copy_bytes(&registry[found].1.name);
                            let sm = crate::gcode::exclude_object_start(&name);
                            let ghost prev = out.deep_view();
                            out.push(sm);
                            proof {
                                assert(out.deep_view() =~~= prev.push(
                                    start_marker(fin.reg[found as int].1.name),
                                ));
                            }
                            open = Option::Some(name);
                        } else {
                            open = Option::None;
                        }
                    },
                }
            } else if starts_with(line, "; stop printing object ") {
                match &open {
                    Option::Some(n) => {
                        let em = crate::gcode::exclude_object_end(n);
                        let ghost prev = out.deep_view();
                        let ghost nv = n@;
                        out.push(em);
                        proof {
                            assert(out.deep_view() =~~= prev.push(end_marker(nv)));
                        }
                        open = Option::None;
                    },
                    Option::None => {},
                }
            }
            proof {
                let (c, cur2) = emit_step(lv[j as int], fin.reg, cur0);
                assert(out.deep_view() =~= out0 + c);
                assert(cur2 == view_opt(open));
            }
            j = j + 1;
        }
        match &open {
            Option::Some(n) => {
                let em = crate::gcode::exclude_object_end(n);
                let ghost prev = out.deep_view();
                let ghost nv = n@;
                out.push(em);
                proof {
                    assert(out.deep_view() =~~= prev.push(end_marker(nv)));
                    assert(out.deep_view() =~= prelude_chunks(lv, fin.reg) + slic3r_emit(
                        lv,
                        resume_at(lv),
                        fin.reg,
                        Option::None,
                    ));
                }
            },
            Option::None => {
                proof {
                    assert(out.deep_view() =~= prelude_chunks(lv, fin.reg) + slic3r_emit(
                        lv,
                        resume_at(lv),
                        fin.reg,
                        Option::None,
                    ));
                }
            },
        }
        out
    }
}

} // verus!
