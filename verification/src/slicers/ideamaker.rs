//! The two-pass processor for ideaMaker G-code.
//!
//! An object is announced by a `;PRINTING:<name>` line immediately
//! followed by `;PRINTING_ID:<id>`: the name labels the object, the id is
//! the correlation key, and id `-1` means "no object". A
//! `;REMAINING_TIME: 0` line force-closes the open object at the end of
//! the print.

use vstd::prelude::*;

verus! {

use vstd::string::StringSliceAdditionalSpecFns;
use crate::gcode::{end_marker, line_chunk, push_line_chunk, start_marker};
use crate::hulls::{KnownObject, ObjModel, reg_model};
use crate::layers::LayerFilter;
use crate::text::{copy_bytes, eq_str, is_prefix, starts_with};
use super::{
    after_colon, bump_model, collect_model, emit_prelude, idx_opt, lemma_reg_index,
    lemma_reg_index_push, new_entry_model, objects_wf, prelude_chunks, reg_bump, reg_collect,
    reg_find, reg_index, reg_insert, resume_at, split_after_colon, view_opt,
};

/// The discovery pass state: the registry, the entry now printing, and a
/// `;PRINTING:` name waiting for its `;PRINTING_ID:` line.
#[verifier::ext_equal]
pub struct IdeaScan {
    pub reg: Seq<(Seq<u8>, ObjModel)>,
    pub cur: Option<int>,
    pub pending: Option<Seq<u8>>,
}

/// One line of the discovery pass.
pub open spec fn scan_step(st: IdeaScan, line: Seq<u8>, f: LayerFilter) -> IdeaScan {
    if is_prefix(";PRINTING:".spec_bytes(), line) {
        IdeaScan { reg: st.reg, cur: st.cur, pending: after_colon(line) }
    } else if st.pending is Some && is_prefix(";PRINTING_ID:".spec_bytes(), line) && after_colon(
        line,
    ) == Option::Some("-1".spec_bytes()) {
        st
    } else {
        let st1 = match st.pending {
            Option::Some(name) => if is_prefix(";PRINTING_ID:".spec_bytes(), line) {
                match after_colon(line) {
                    Option::None => st,
                    Option::Some(id) => {
                        let absent = !(reg_index(st.reg, id) < st.reg.len());
                        let m1 = if absent {
                            st.reg.push(new_entry_model(id, name))
                        } else {
                            st.reg
                        };
                        let p1 = if absent {
                            Option::None
                        } else {
                            st.pending
                        };
                        let i = reg_index(m1, id);
                        IdeaScan { reg: bump_model(m1, i), cur: Option::Some(i), pending: p1 }
                    },
                }
            } else {
                IdeaScan { reg: st.reg, cur: st.cur, pending: Option::None }
            },
            Option::None => st,
        };
        match st1.cur {
            Option::Some(i) => IdeaScan {
                reg: collect_model(st1.reg, i, line, f),
                cur: st1.cur,
                pending: st1.pending,
            },
            Option::None => st1,
        }
    }
}

/// The discovery pass over lines `i..`.
pub open spec fn idea_scan(lines: Seq<Seq<u8>>, i: int, st: IdeaScan, f: LayerFilter) -> IdeaScan
    decreases lines.len() - i,
{
    if i < 0 || i >= lines.len() {
        st
    } else {
        idea_scan(lines, i + 1, scan_step(st, lines[i], f), f)
    }
}

/// The force-close on the end-of-print time line.
pub open spec fn rt_close(
    c: Seq<Seq<u8>>,
    cur: Option<Seq<u8>>,
    line: Seq<u8>,
) -> (Seq<Seq<u8>>, Option<Seq<u8>>) {
    match cur {
        Option::Some(n) => if line == ";REMAINING_TIME: 0".spec_bytes() {
            (c.push(end_marker(n)), Option::None)
        } else {
            (c, cur)
        },
        Option::None => (c, cur),
    }
}

/// One line of the annotated emission pass.
pub open spec fn emit_step(
    line: Seq<u8>,
    reg: Seq<(Seq<u8>, ObjModel)>,
    cur: Option<Seq<u8>>,
) -> (Seq<Seq<u8>>, Option<Seq<u8>>) {
    let c0 = seq![line_chunk(line)];
    if is_prefix(";PRINTING_ID:".spec_bytes(), line) {
        match after_colon(line) {
            Option::None => rt_close(c0, cur, line),
            Option::Some(id) => {
                let c1 = match cur {
                    Option::Some(n) => c0.push(end_marker(n)),
                    Option::None => c0,
                };
                if id == "-1".spec_bytes() {
                    (c1, Option::None)
                } else {
                    let fidx = reg_index(reg, id);
                    if fidx < reg.len() {
                        rt_close(
                            c1.push(start_marker(reg[fidx].1.name)),
                            Option::Some(reg[fidx].1.name),
                            line,
                        )
                    } else {
                        rt_close(c1, Option::None, line)
                    }
                }
            },
        }
    } else {
        rt_close(c0, cur, line)
    }
}

/// The annotated emission of lines `i..`, closing any open object at the
/// end of the stream.
pub open spec fn idea_emit(
    lines: Seq<Seq<u8>>,
    i: int,
    reg: Seq<(Seq<u8>, ObjModel)>,
    cur: Option<Seq<u8>>,
) -> Seq<Seq<u8>>
    decreases lines.len() - i,
{
    if i < 0 || i >= lines.len() {
        match cur {
            Option::Some(n) => seq![end_marker(n)],
            Option::None => Seq::empty(),
        }
    } else {
        let (c, cur2) = emit_step(lines[i], reg, cur);
        c + idea_emit(lines, i + 1, reg, cur2)
    }
}

/// Everything the processor emits for the file.
pub open spec fn idea_output(lines: Seq<Seq<u8>>, f: LayerFilter) -> Seq<Seq<u8>> {
    let st = idea_scan(
        lines,
        0,
        IdeaScan { reg: Seq::empty(), cur: Option::None, pending: Option::None },
        f,
    );
    prelude_chunks(lines, st.reg) + idea_emit(lines, resume_at(lines), st.reg, Option::None)
}

/// Whether the current-object index points into the registry, as every
/// reachable discovery state has it.
pub open spec fn cur_in_range(st: IdeaScan) -> bool {
    match st.cur {
        Option::Some(i) => 0 <= i < st.reg.len(),
        Option::None => true,
    }
}

/// Two discovery states that differ at most in their point sets.
pub open spec fn scan_refines(st1: IdeaScan, st2: IdeaScan) -> bool {
    super::reg_refines(st1.reg, st2.reg) && st1.cur == st2.cur && st1.pending == st2.pending
}

/// Point collection keeps refinement.
proof fn lemma_collect_refines(
    m1: Seq<(Seq<u8>, ObjModel)>,
    m2: Seq<(Seq<u8>, ObjModel)>,
    i: int,
    line: Seq<u8>,
    f1: LayerFilter,
    f2: LayerFilter,
)
    requires
        super::filter_le(f1, f2),
        super::reg_refines(m1, m2),
        0 <= i < m1.len(),
    ensures
        super::reg_refines(collect_model(m1, i, line, f1), collect_model(m2, i, line, f2)),
{
    super::lemma_maybe_points_monotone(line, m1[i].1.layer, m1[i].1.points, m2[i].1.points, f1, f2);
    assert(forall|k: int|
        0 <= k < m1.len() && k != i ==> collect_model(m1, i, line, f1)[k] == m1[k] && collect_model(
            m2,
            i,
            line,
            f2,
        )[k] == m2[k]);
}

/// One discovery step keeps refinement: under a narrower filter it
/// registers the same objects and collects at most the same points.
proof fn lemma_scan_step_monotone(
    st1: IdeaScan,
    st2: IdeaScan,
    line: Seq<u8>,
    f1: LayerFilter,
    f2: LayerFilter,
)
    requires
        super::filter_le(f1, f2),
        scan_refines(st1, st2),
        cur_in_range(st1),
    ensures
        scan_refines(scan_step(st1, line, f1), scan_step(st2, line, f2)),
        cur_in_range(scan_step(st1, line, f1)),
{
    if is_prefix(";PRINTING:".spec_bytes(), line) {
    } else if st1.pending is Some && is_prefix(";PRINTING_ID:".spec_bytes(), line) && after_colon(
        line,
    ) == Option::Some("-1".spec_bytes()) {
    } else {
        match st1.pending {
            Option::Some(name) => {
                if is_prefix(";PRINTING_ID:".spec_bytes(), line) {
                    match after_colon(line) {
                        Option::None => {
                            match st1.cur {
                                Option::Some(i) => {
                                    lemma_collect_refines(st1.reg, st2.reg, i, line, f1, f2);
                                },
                                Option::None => {
                                },
                            }
                        },
                        Option::Some(id) => {
                            super::lemma_reg_index_refines(st1.reg, st2.reg, id);
                            let a1 = if reg_index(st1.reg, id) < st1.reg.len() {
                                st1.reg
                            } else {
                                st1.reg.push(new_entry_model(id, name))
                            };
                            let a2 = if reg_index(st2.reg, id) < st2.reg.len() {
                                st2.reg
                            } else {
                                st2.reg.push(new_entry_model(id, name))
                            };
                            assert(super::reg_refines(a1, a2)) by {
                                if !(reg_index(st1.reg, id) < st1.reg.len()) {
                                    assert(forall|k: int|
                                        0 <= k < st1.reg.len() ==> a1[k] == st1.reg[k] && a2[k]
                                            == st2.reg[k]);
                                    assert(a1[st1.reg.len() as int] == new_entry_model(id, name));
                                    assert(a2[st2.reg.len() as int] == new_entry_model(id, name));
                                }
                            }
                            super::lemma_reg_index_refines(a1, a2, id);
                            let i = reg_index(a1, id);
                            assert(0 <= i < a1.len()) by {
                                lemma_reg_index(st1.reg, id);
                                if !(reg_index(st1.reg, id) < st1.reg.len()) {
                                    lemma_reg_index_push(st1.reg, new_entry_model(id, name));
                                }
                            }
                            assert(super::reg_refines(bump_model(a1, i), bump_model(a2, i))) by {
                                assert(forall|k: int|
                                    0 <= k < a1.len() && k != i ==> bump_model(a1, i)[k] == a1[k]
                                        && bump_model(a2, i)[k] == a2[k]);
                            }
                            lemma_collect_refines(
                                bump_model(a1, i),
                                bump_model(a2, i),
                                i,
                                line,
                                f1,
                                f2,
                            );
                        },
                    }
                } else {
                    match st1.cur {
                        Option::Some(i) => {
                            lemma_collect_refines(st1.reg, st2.reg, i, line, f1, f2);
                        },
                        Option::None => {
                        },
                    }
                }
            },
            Option::None => {
                match st1.cur {
                    Option::Some(i) => {
                        lemma_collect_refines(st1.reg, st2.reg, i, line, f1, f2);
                    },
                    Option::None => {
                    },
                }
            },
        }
    }
}

/// Restricting the layer filter cannot grow a hull: from refining states,
/// the discovery pass under a narrower filter names the same objects,
/// with the same layer counts, and holds for each a subset of the points
/// it collects under the wider filter.
pub proof fn lemma_scan_monotone(
    lines: Seq<Seq<u8>>,
    i: int,
    st1: IdeaScan,
    st2: IdeaScan,
    f1: LayerFilter,
    f2: LayerFilter,
)
    requires
        super::filter_le(f1, f2),
        scan_refines(st1, st2),
        cur_in_range(st1),
    ensures
        super::reg_refines(idea_scan(lines, i, st1, f1).reg, idea_scan(lines, i, st2, f2).reg),
    decreases lines.len() - i,
{
    if 0 <= i < lines.len() {
        lemma_scan_step_monotone(st1, st2, lines[i], f1, f2);
        lemma_scan_monotone(
            lines,
            i + 1,
            scan_step(st1, lines[i], f1),
            scan_step(st2, lines[i], f2),
            f1,
            f2,
        );
    }
}

/// Restricting the layer filter shrinks or keeps each object's point
/// set, never grows it: the discovery pass under a narrower filter finds
/// the same objects and, for each, a subset of the points found under
/// the wider filter. The outline built from those points can then only
/// shrink or stay.
pub proof fn lemma_narrower_filter_collects_subset(
    lines: Seq<Seq<u8>>,
    f1: LayerFilter,
    f2: LayerFilter,
)
    requires
        super::filter_le(f1, f2),
    ensures
        super::reg_refines(
            idea_scan(
                lines,
                0,
                IdeaScan { reg: Seq::empty(), cur: Option::None, pending: Option::None },
                f1,
            ).reg,
            idea_scan(
                lines,
                0,
                IdeaScan { reg: Seq::empty(), cur: Option::None, pending: Option::None },
                f2,
            ).reg,
        ),
{
    let init = IdeaScan { reg: Seq::empty(), cur: Option::None, pending: Option::None };
    lemma_scan_monotone(lines, 0, init, init, f1, f2);
}

/// One discovery step keeps the registry ids distinct: an object is
/// registered only when its id is not yet recorded.
proof fn lemma_scan_step_ids_unique(st: IdeaScan, line: Seq<u8>, f: LayerFilter)
    requires
        super::ids_unique(st.reg),
        cur_in_range(st),
    ensures
        super::ids_unique(scan_step(st, line, f).reg),
        cur_in_range(scan_step(st, line, f)),
{
    if is_prefix(";PRINTING:".spec_bytes(), line) {
    } else if st.pending is Some && is_prefix(";PRINTING_ID:".spec_bytes(), line) && after_colon(
        line,
    ) == Option::Some("-1".spec_bytes()) {
    } else {
        let st1 = match st.pending {
            Option::Some(name) => if is_prefix(";PRINTING_ID:".spec_bytes(), line) {
                match after_colon(line) {
                    Option::None => st,
                    Option::Some(id) => {
                        let absent = !(reg_index(st.reg, id) < st.reg.len());
                        let m1 = if absent {
                            st.reg.push(new_entry_model(id, name))
                        } else {
                            st.reg
                        };
                        let p1 = if absent {
                            Option::None
                        } else {
                            st.pending
                        };
                        let i = reg_index(m1, id);
                        proof_register_unique(st.reg, id, name);
                        IdeaScan { reg: bump_model(m1, i), cur: Option::Some(i), pending: p1 }
                    },
                }
            } else {
                IdeaScan { reg: st.reg, cur: st.cur, pending: Option::None }
            },
            Option::None => st,
        };
        assert(super::ids_unique(st1.reg) && cur_in_range(st1));
        match st1.cur {
            Option::Some(i) => {
                assert(forall|k: int|
                    0 <= k < st1.reg.len() ==> (#[trigger] collect_model(st1.reg, i, line, f)[k]).0
                        == st1.reg[k].0);
            },
            Option::None => {
            },
        }
    }
}

/// Registering a fresh id, then advancing its layer, keeps the ids
/// distinct and yields an index into the registry.
proof fn proof_register_unique(m: Seq<(Seq<u8>, ObjModel)>, id: Seq<u8>, name: Seq<u8>)
    requires
        super::ids_unique(m),
    ensures
        ({
            let m1 = if reg_index(m, id) < m.len() {
                m
            } else {
                m.push(new_entry_model(id, name))
            };
            let i = reg_index(m1, id);
            &&& super::ids_unique(bump_model(m1, i))
            &&& 0 <= i < m1.len()
            &&& bump_model(m1, i).len() == m1.len()
        }),
{
    lemma_reg_index(m, id);
    let m1 = if reg_index(m, id) < m.len() {
        m
    } else {
        m.push(new_entry_model(id, name))
    };
    assert(super::ids_unique(m1)) by {
        if !(reg_index(m, id) < m.len()) {
            assert(forall|k: int| 0 <= k < m.len() ==> m1[k] == m[k]);
            assert(m1[m.len() as int].0 == id);
            assert(forall|k: int| 0 <= k < m.len() ==> (#[trigger] m[k]).0 != id);
        }
    }
    let i = reg_index(m1, id);
    assert(0 <= i < m1.len()) by {
        if !(reg_index(m, id) < m.len()) {
            lemma_reg_index_push(m, new_entry_model(id, name));
        }
    }
    assert(super::ids_unique(bump_model(m1, i))) by {
        assert(forall|k: int|
            0 <= k < m1.len() ==> (#[trigger] bump_model(m1, i)[k]).0 == m1[k].0);
    }
}

/// The discovery pass keeps the registry ids distinct.
pub proof fn lemma_scan_ids_unique(lines: Seq<Seq<u8>>, i: int, st: IdeaScan, f: LayerFilter)
    requires
        super::ids_unique(st.reg),
        cur_in_range(st),
    ensures
        super::ids_unique(idea_scan(lines, i, st, f).reg),
    decreases lines.len() - i,
{
    if 0 <= i < lines.len() {
        lemma_scan_step_ids_unique(st, lines[i], f);
        lemma_scan_ids_unique(lines, i + 1, scan_step(st, lines[i], f), f);
    }
}

/// The annotated emission adds no definition line.
proof fn lemma_emit_no_defines(
    lines: Seq<Seq<u8>>,
    i: int,
    reg: Seq<(Seq<u8>, ObjModel)>,
    cur: Option<Seq<u8>>,
)
    requires
        super::no_define_lines(lines),
        0 <= i,
    ensures
        crate::gcode::count_pref(
            idea_emit(lines, i, reg, cur),
            "EXCLUDE_OBJECT_DEFINE NAME=".spec_bytes(),
        ) == 0,
    decreases lines.len() - i,
{
    let p = "EXCLUDE_OBJECT_DEFINE NAME=".spec_bytes();
    if i >= lines.len() {
        match cur {
            Option::Some(n) => {
                assert(seq![end_marker(n)] =~= Seq::<Seq<u8>>::empty().push(end_marker(n)));
                crate::gcode::lemma_push_marker_keeps_defines(Seq::empty(), n);
            },
            Option::None => {
            },
        }
    } else {
        let (c, cur2) = emit_step(lines[i], reg, cur);
        lemma_emit_no_defines(lines, i + 1, reg, cur2);
        crate::gcode::lemma_count_pref_concat(c, idea_emit(lines, i + 1, reg, cur2), p);
        let c0 = seq![line_chunk(lines[i])];
        crate::gcode::lemma_line_chunks_count_free(lines[i]);
        assert(crate::gcode::count_pref(c, p) == 0) by {
            let line = lines[i];
            if is_prefix(";PRINTING_ID:".spec_bytes(), line) {
                match after_colon(line) {
                    Option::None => {
                        match cur {
                            Option::Some(n) => {
                                if line == ";REMAINING_TIME: 0".spec_bytes() {
                                    crate::gcode::lemma_push_marker_keeps_defines(c0, n);
                                }
                            },
                            Option::None => {
                            },
                        }
                    },
                    Option::Some(id) => {
                        let c1 = match cur {
                            Option::Some(n) => c0.push(end_marker(n)),
                            Option::None => c0,
                        };
                        match cur {
                            Option::Some(n) => {
                                crate::gcode::lemma_push_marker_keeps_defines(c0, n);
                            },
                            Option::None => {
                            },
                        }
                        if id == "-1".spec_bytes() {
                        } else {
                            let fidx = reg_index(reg, id);
                            if fidx < reg.len() {
                                let opened = reg[fidx].1.name;
                                crate::gcode::lemma_push_marker_keeps_defines(c1, opened);
                                crate::gcode::lemma_push_marker_keeps_defines(
                                    c1.push(start_marker(opened)),
                                    opened,
                                );
                            }
                        }
                    },
                }
            } else {
                match cur {
                    Option::Some(n) => {
                        if line == ";REMAINING_TIME: 0".spec_bytes() {
                            crate::gcode::lemma_push_marker_keeps_defines(c0, n);
                        }
                    },
                    Option::None => {
                    },
                }
            }
        }
    }
}

/// Exactly one annotation header: for a file whose own lines carry no
/// definition word — as every file the driver hands to a processor does —
/// the whole output holds exactly one `EXCLUDE_OBJECT_DEFINE` chunk per
/// discovered object, all inside the single header block, and the
/// discovered ids are pairwise distinct. A file with no line to print
/// gets no header at all.
pub proof fn lemma_single_header(lines: Seq<Seq<u8>>, f: LayerFilter)
    requires
        super::no_define_lines(lines),
    ensures
        ({
            let st = idea_scan(
                lines,
                0,
                IdeaScan { reg: Seq::empty(), cur: Option::None, pending: Option::None },
                f,
            );
            &&& super::ids_unique(st.reg)
            &&& crate::gcode::count_pref(
                idea_output(lines, f),
                "EXCLUDE_OBJECT_DEFINE NAME=".spec_bytes(),
            ) == if super::first_real(lines, 0) < lines.len() {
                st.reg.len() as int
            } else {
                0
            }
        }),
{
    let p = "EXCLUDE_OBJECT_DEFINE NAME=".spec_bytes();
    let init = IdeaScan { reg: Seq::empty(), cur: Option::None, pending: Option::None };
    let st = idea_scan(lines, 0, init, f);
    super::lemma_first_real(lines, 0);
    lemma_scan_ids_unique(lines, 0, init, f);
    super::lemma_prelude_defines_count(lines, st.reg);
    lemma_emit_no_defines(lines, resume_at(lines), st.reg, Option::None);
    crate::gcode::lemma_count_pref_concat(
        prelude_chunks(lines, st.reg),
        idea_emit(lines, resume_at(lines), st.reg, Option::None),
        p,
    );
}

/// How one emission step shifts the start and end counts for any one
/// name: exactly in step with the object it leaves open.
proof fn lemma_emit_step_counts(
    line: Seq<u8>,
    reg: Seq<(Seq<u8>, ObjModel)>,
    cur: Option<Seq<u8>>,
    n: Seq<u8>,
)
    requires
        !is_prefix("EXCLUDE_OBJECT_START NAME=".spec_bytes(), line),
        !is_prefix("EXCLUDE_OBJECT_END NAME=".spec_bytes(), line),
    ensures
        ({
            let (c, cur2) = emit_step(line, reg, cur);
            crate::gcode::count_eq(c, end_marker(n)) - (if cur == Option::Some(n) {
                1int
            } else {
                0
            }) == crate::gcode::count_eq(c, start_marker(n)) - (if cur2 == Option::Some(n) {
                1int
            } else {
                0
            })
        }),
{
    let sm = start_marker(n);
    let em = end_marker(n);
    crate::gcode::lemma_line_chunk_not_marker(line, n);
    let c0 = seq![line_chunk(line)];
    crate::gcode::lemma_count_eq_single(line_chunk(line), sm);
    crate::gcode::lemma_count_eq_single(line_chunk(line), em);
    assert forall|name: Seq<u8>| true implies #[trigger] crate::gcode::count_eq(
        c0.push(end_marker(name)),
        sm,
    ) == 0 by {
        crate::gcode::lemma_count_eq_push(c0, end_marker(name), sm);
        crate::gcode::lemma_start_end_markers_differ(n, name);
    }
    assert forall|name: Seq<u8>| true implies #[trigger] crate::gcode::count_eq(
        c0.push(end_marker(name)),
        em,
    ) == (if name == n {
        1int
    } else {
        0
    }) by {
        crate::gcode::lemma_count_eq_push(c0, end_marker(name), em);
        crate::gcode::lemma_end_marker_eq(name, n);
    }
    if is_prefix(";PRINTING_ID:".spec_bytes(), line) {
        match after_colon(line) {
            Option::None => {
            },
            Option::Some(id) => {
                let c1 = match cur {
                    Option::Some(name) => c0.push(end_marker(name)),
                    Option::None => c0,
                };
                if id == "-1".spec_bytes() {
                } else {
                    let fidx = reg_index(reg, id);
                    if fidx < reg.len() {
                        let opened = reg[fidx].1.name;
                        let c2 = c1.push(start_marker(opened));
                        crate::gcode::lemma_count_eq_push(c1, start_marker(opened), sm);
                        crate::gcode::lemma_count_eq_push(c1, start_marker(opened), em);
                        crate::gcode::lemma_start_marker_eq(opened, n);
                        crate::gcode::lemma_start_end_markers_differ(opened, n);
                        crate::gcode::lemma_count_eq_push(c2, end_marker(opened), sm);
                        crate::gcode::lemma_count_eq_push(c2, end_marker(opened), em);
                        crate::gcode::lemma_start_end_markers_differ(n, opened);
                        crate::gcode::lemma_end_marker_eq(opened, n);
                    }
                }
            },
        }
    } else {
        match cur {
            Option::Some(name) => {
                if line == ";REMAINING_TIME: 0".spec_bytes() {
                    crate::gcode::lemma_count_eq_push(c0, end_marker(name), sm);
                    crate::gcode::lemma_count_eq_push(c0, end_marker(name), em);
                    crate::gcode::lemma_start_end_markers_differ(n, name);
                    crate::gcode::lemma_end_marker_eq(name, n);
                }
            },
            Option::None => {
            },
        }
    }
}

/// The annotated emission balances its markers: from lines `i..` with the
/// object `cur` open, every name gets exactly as many end markers as
/// start markers, plus one end for the object already open.
pub proof fn lemma_idea_emit_balanced(
    lines: Seq<Seq<u8>>,
    i: int,
    reg: Seq<(Seq<u8>, ObjModel)>,
    cur: Option<Seq<u8>>,
    n: Seq<u8>,
)
    requires
        0 <= i,
        crate::gcode::no_marker_lines(lines),
    ensures
        crate::gcode::count_eq(idea_emit(lines, i, reg, cur), end_marker(n))
            == crate::gcode::count_eq(idea_emit(lines, i, reg, cur), start_marker(n)) + (if cur
            == Option::Some(n) {
            1int
        } else {
            0
        }),
    decreases lines.len() - i,
{
    if i >= lines.len() {
        match cur {
            Option::Some(m) => {
                crate::gcode::lemma_count_eq_single(end_marker(m), end_marker(n));
                crate::gcode::lemma_count_eq_single(end_marker(m), start_marker(n));
                crate::gcode::lemma_end_marker_eq(m, n);
                crate::gcode::lemma_start_end_markers_differ(n, m);
            },
            Option::None => {
            },
        }
    } else {
        let (c, cur2) = emit_step(lines[i], reg, cur);
        lemma_emit_step_counts(lines[i], reg, cur, n);
        lemma_idea_emit_balanced(lines, i + 1, reg, cur2, n);
        crate::gcode::lemma_count_eq_concat(c, idea_emit(lines, i + 1, reg, cur2), end_marker(n));
        crate::gcode::lemma_count_eq_concat(c, idea_emit(lines, i + 1, reg, cur2), start_marker(n));
    }
}

/// Balanced annotation: for every object name, the whole ideaMaker output
/// holds exactly as many `EXCLUDE_OBJECT_END` as `EXCLUDE_OBJECT_START`
/// chunks, for files whose own lines are not marker lines.
pub proof fn lemma_idea_output_balanced(lines: Seq<Seq<u8>>, f: LayerFilter, n: Seq<u8>)
    requires
        crate::gcode::no_marker_lines(lines),
    ensures
        crate::gcode::count_eq(idea_output(lines, f), start_marker(n)) == crate::gcode::count_eq(
            idea_output(lines, f),
            end_marker(n),
        ),
{
    let st = idea_scan(
        lines,
        0,
        IdeaScan { reg: Seq::empty(), cur: Option::None, pending: Option::None },
        f,
    );
    let rest = idea_emit(lines, resume_at(lines), st.reg, Option::None);
    super::lemma_first_real(lines, 0);
    super::lemma_prelude_no_markers(lines, st.reg, n);
    lemma_idea_emit_balanced(lines, resume_at(lines), st.reg, Option::None, n);
    crate::gcode::lemma_count_eq_concat(prelude_chunks(lines, st.reg), rest, start_marker(n));
    crate::gcode::lemma_count_eq_concat(prelude_chunks(lines, st.reg), rest, end_marker(n));
}

pub struct IdeaMakerProcessor {
}

impl IdeaMakerProcessor {
    pub fn new() -> (r: Self) {
        Self {  }
    }

    /// Two passes over the file's lines: discover the objects and their
    /// points, then re-emit the file with the header and the object
    /// start/end markers.
    pub fn process(&self, lines: &Vec<Vec<u8>>, layer_filter: &LayerFilter) -> (r: Vec<Vec<u8>>)
        requires
            layer_filter.wf(),
            lines@.len() <= isize::MAX,
        ensures
            r.deep_view() == idea_output(lines.deep_view(), *layer_filter),
    {
        let ghost lv = lines.deep_view();
        let ghost f = *layer_filter;
        let ghost init = IdeaScan { reg: Seq::empty(), cur: Option::None, pending: Option::None };
        let mut registry: Vec<(Vec<u8>, KnownObject)> = Vec::new();
        let mut current: Option<usize> = Option::None;
        let mut pending: Option<Vec<u8>> = Option::None;
        let mut i: usize = 0;
        proof {
            assert(reg_model(registry@) =~= init.reg);
        }
        while i < lines.len()
            invariant
                i <= lv.len() == lines@.len(),
                lv.len() <= isize::MAX,
                f == *layer_filter,
                f.wf(),
                objects_wf(registry@),
                idea_scan(lv, 0, init, f) == idea_scan(
                    lv,
                    i as int,
                    IdeaScan {
                        reg: reg_model(registry@),
                        cur: idx_opt(current),
                        pending: view_opt(pending),
                    },
                    f,
                ),
                forall|k: int|
                    0 <= k < reg_model(registry@).len() ==> -1 <= (#[trigger] reg_model(
                        registry@,
                    )[k]).1.layer < i as int,
                match current {
                    Option::Some(u) => u < registry@.len() && reg_model(
                        registry@,
                    )[u as int].1.layer >= 0,
                    Option::None => true,
                },
            decreases lv.len() - i,
        {
            let line = &lines[i];
            assert(line@ == lv[i as int]);
            let ghost st = IdeaScan {
                reg: reg_model(registry@),
                cur: idx_opt(current),
                pending: view_opt(pending),
            };
            if starts_with(line, ";PRINTING:") {
                pending = split_after_colon(line);
            } else {
                let mut skip = false;
                let had_pending = pending.is_some();
                if had_pending && starts_with(line, ";PRINTING_ID:") {
                    match split_after_colon(line) {
                        Option::None => {},
                        Option::Some(id) => {
                            if eq_str(&id, "-1") {
                                skip = true;
                            } else {
                                let found = reg_find(&registry, &id);
                                proof {
                                    lemma_reg_index(reg_model(registry@), id@);
                                }
                                let idx: usize;
                                if found == registry.len() {
                                    let name = match &pending {
                                        Option::Some(n) => copy_bytes(n),
                                        Option::None => Vec::new(),
                                    };
                                    reg_insert(&mut registry, &id, &name);
                                    proof {
                                        lemma_reg_index_push(st.reg, new_entry_model(id@, name@));
                                    }
                                    pending = Option::None;
                                    idx = found;
                                } else {
                                    idx = found;
                                }
                                assert(reg_model(registry@).len() == registry@.len());
                                assert(idx as int == reg_index(reg_model(registry@), id@));
                                assert(idx < registry@.len());
                                reg_bump(&mut registry, idx);
                                current = Option::Some(idx);
                            }
                        },
                    }
                } else if had_pending {
                    pending = Option::None;
                }
                if !skip {
                    match current {
                        Option::Some(idx) => {
                            reg_collect(&mut registry, idx, line, layer_filter);
                        },
                        Option::None => {},
                    }
                }
            }
            proof {
                let st2 = IdeaScan {
                    reg: reg_model(registry@),
                    cur: idx_opt(current),
                    pending: view_opt(pending),
                };
                assert(st2 =~~= scan_step(st, lv[i as int], f));
            }
            i = i + 1;
        }
        let ghost fin = idea_scan(lv, 0, init, f);
        proof {
            assert(fin =~~= IdeaScan {
                reg: reg_model(registry@),
                cur: idx_opt(current),
                pending: view_opt(pending),
            });
        }
        // Second pass: the prelude and header, then the annotated
        // remainder against the frozen registry.
        let mut out: Vec<Vec<u8>> = Vec::new();
        let mut j = emit_prelude(lines, &registry, &mut out);
        let mut open: Option<Vec<u8>> = Option::None;
        while j < lines.len()
            invariant
                resume_at(lv) <= j <= lv.len() == lines@.len(),
                fin.reg == reg_model(registry@),
                fin == idea_scan(lv, 0, init, f),
                out.deep_view() + idea_emit(lv, j as int, fin.reg, view_opt(open))
                    == prelude_chunks(lv, fin.reg) + idea_emit(
                    lv,
                    resume_at(lv),
                    fin.reg,
                    Option::None,
                ),
            decreases lv.len() - j,
        {
            let line = &lines[j];
            assert(line@ == lv[j as int]);
            let ghost cur0: Option<Seq<u8>> = view_opt(open);
            let ghost out0 = out.deep_view();
            push_line_chunk(&mut out, line);
            let mut skip = false;
            if starts_with(line, ";PRINTING_ID:") {
                match split_after_colon(line) {
                    Option::None => {},
                    Option::Some(id) => {
                        match &open {
                            Option::Some(n) => {
                                let em = crate::gcode::exclude_object_end(n);
                                let ghost prev = out.deep_view();
                                let ghost nv = n@;
                                out.push(em);
                                proof {
                                    assert(out.deep_view() =~~= prev.push(end_marker(nv)));
                                }
                                open = Option::None;
                            },
                            Option::None => {},
                        }
                        if eq_str(&id, "-1") {
                            skip = true;
                        } else {
                            proof {
                                lemma_reg_index(fin.reg, id@);
                            }
                            let found = reg_find(&registry, &id);
                            if found < registry.len() {
                                let name = copy_bytes(&registry[found].1.name);
                                let sm = crate::gcode::exclude_object_start(&name);
                                let ghost prev = out.deep_view();
                                out.push(sm);
                                proof {
                                    assert(out.deep_view() =~~= prev.push(
                                        start_marker(fin.reg[found as int].1.name),
                                    ));
                                }
                                open = Option::Some(name);
                            } else {
                                open = Option::None;
                            }
                        }
                    },
                }
            }
            if !skip {
                let over = eq_str(line, ";REMAINING_TIME: 0");
                if over {
                    match &open {
                        Option::Some(n) => {
                            let em = crate::gcode::exclude_object_end(n);
                            let ghost prev = out.deep_view();
                            let ghost nv = n@;
                            out.push(em);
                            proof {
                                assert(out.deep_view() =~~= prev.push(end_marker(nv)));
                            }
                            open = Option::None;
                        },
                        Option::None => {},
                    }
                }
            }
            proof {
                let (c, cur2) = emit_step(lv[j as int], fin.reg, cur0);
                assert(out.deep_view() =~= out0 + c);
                assert(cur2 == view_opt(open));
            }
            j = j + 1;
        }
        match &open {
            Option::Some(n) => {
                let em = crate::gcode::exclude_object_end(n);
                let ghost prev = out.deep_view();
                let ghost nv = n@;
                out.push(em);
                proof {
                    assert(out.deep_view() =~~= prev.push(end_marker(nv)));
                    assert(out.deep_view() =~= prelude_chunks(lv, fin.reg) + idea_emit(
                        lv,
                        resume_at(lv),
                        fin.reg,
                        Option::None,
                    ));
                }
            },
            Option::None => {
                proof {
                    assert(out.deep_view() =~= prelude_chunks(lv, fin.reg) + idea_emit(
                        lv,
                        resume_at(lv),
                        fin.reg,
                        Option::None,
                    ));
                }
            },
        }
        out
    }
}

} // verus!
