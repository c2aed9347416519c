//! The two-pass processor for G-code carrying Marlin `M486` tags.
//!
//! `M486 T<n>` pre-declares `n+1` objects with ids `-1..n-1`, where `-1`
//! is the "no object" sentinel and stays out of the header; `M486 S<id>`
//! switches the current object. The emission pass comments the original
//! `M486` lines out rather than removing them, and closes an object still
//! open when the stream ends.

use vstd::prelude::*;

verus! {

use vstd::string::StringSliceAdditionalSpecFns;
use crate::gcode::{
    commented_chunk, end_marker, line_chunk, params_of, parse_gcode, push_commented_chunk,
    push_line_chunk, start_marker,
};
use crate::hulls::{KnownObject, ObjModel, reg_model};
use crate::layers::LayerFilter;
use crate::text::{
    copy_bytes, dec_of_int, eq_str, fmt_isize, is_prefix, parse_isize, parse_isize_spec,
    starts_with, starts_with_upper, upper_byte,
};
use super::{
    bump_model, collect_model_eff, emit_prelude, lemma_reg_index, new_entry_model, objects_wf,
    prelude_chunks, reg_bump, reg_collect_eff, reg_find, reg_index, reg_insert, resume_at,
    view_opt,
};

/// The discovery pass state: the registry and the id of the object now
/// printing. The current id is held by value: an `M486 S` switch may name
/// an id that no `T` declaration introduced.
#[verifier::ext_equal]
pub struct M486Scan {
    pub reg: Seq<(Seq<u8>, ObjModel)>,
    pub cur: Option<Seq<u8>>,
}

/// The registry after declaring ids `i..end`, each one only if absent.
pub open spec fn declare_model(m: Seq<(Seq<u8>, ObjModel)>, i: int, end: int) -> Seq<
    (Seq<u8>, ObjModel),
>
    decreases end - i,
{
    if i >= end {
        m
    } else {
        let id = dec_of_int(i);
        let m1 = if reg_index(m, id) < m.len() {
            m
        } else {
            m.push(new_entry_model(id, id))
        };
        declare_model(m1, i + 1, end)
    }
}

/// The boundary handling of one discovery step, before point collection.
pub open spec fn scan_pre(st: M486Scan, line: Seq<u8>, f: LayerFilter) -> M486Scan {
    if is_prefix("M486".spec_bytes(), line) {
        let prm = params_of(line);
        if prm.contains_key("T".spec_bytes()) {
            match parse_isize_spec(prm["T".spec_bytes()]) {
                Option::Some(end) => M486Scan { reg: declare_model(st.reg, -1, end), cur: st.cur },
                Option::None => st,
            }
        } else if prm.contains_key("S".spec_bytes()) {
            let id = prm["S".spec_bytes()];
            let m1 = if reg_index(st.reg, id) < st.reg.len() {
                bump_model(st.reg, reg_index(st.reg, id))
            } else {
                st.reg
            };
            M486Scan { reg: m1, cur: Option::Some(id) }
        } else {
            st
        }
    } else {
        st
    }
}

/// One line of the discovery pass: boundary handling, then point
/// collection on the current object when it is declared.
pub open spec fn scan_step(st: M486Scan, line: Seq<u8>, f: LayerFilter) -> M486Scan {
    let st1 = scan_pre(st, line, f);
    match st1.cur {
        Option::Some(id) => if reg_index(st1.reg, id) < st1.reg.len() {
            M486Scan {
                reg: collect_model_eff(st1.reg, reg_index(st1.reg, id), line, f),
                cur: st1.cur,
            }
        } else {
            st1
        },
        Option::None => st1,
    }
}

/// The discovery pass over lines `i..`.
pub open spec fn m486_scan(lines: Seq<Seq<u8>>, i: int, st: M486Scan, f: LayerFilter) -> M486Scan
    decreases lines.len() - i,
{
    if i < 0 || i >= lines.len() {
        st
    } else {
        m486_scan(lines, i + 1, scan_step(st, lines[i], f), f)
    }
}

/// The registry without the `-1` sentinel entry, from index `i` on: what
/// the header declares.
pub open spec fn keep_named(m: Seq<(Seq<u8>, ObjModel)>, i: int) -> Seq<(Seq<u8>, ObjModel)>
    decreases m.len() - i,
{
    if i < 0 || i >= m.len() {
        Seq::empty()
    } else if m[i].0 == "-1".spec_bytes() {
        keep_named(m, i + 1)
    } else {
        seq![m[i]] + keep_named(m, i + 1)
    }
}

/// One line of the annotated emission pass: any `M486` line is commented
/// out, and an `S` switch closes the open object and opens the named one.
pub open spec fn emit_step(
    line: Seq<u8>,
    reg: Seq<(Seq<u8>, ObjModel)>,
    cur: Option<Seq<u8>>,
) -> (Seq<Seq<u8>>, Option<Seq<u8>>) {
    if is_prefix("M486".spec_bytes(), line.map_values(|b: u8| upper_byte(b))) {
        let prm = params_of(line);
        let (c1, cur1): (Seq<Seq<u8>>, Option<Seq<u8>>) = if prm.contains_key(
            "S".spec_bytes(),
        ) {
            let c0 = match cur {
                Option::Some(n) => seq![end_marker(n)],
                Option::None => Seq::empty(),
            };
            let id = prm["S".spec_bytes()];
            if id == "-1".spec_bytes() {
                (c0, Option::None)
            } else {
                let fidx = reg_index(reg, id);
                if fidx < reg.len() {
                    (c0.push(start_marker(reg[fidx].1.name)), Option::Some(reg[fidx].1.name))
                } else {
                    (c0, Option::None)
                }
            }
        } else {
            (Seq::empty(), cur)
        };
        (c1.push(commented_chunk(line)), cur1)
    } else {
        (seq![line_chunk(line)], cur)
    }
}

/// The annotated emission of lines `i..`, closing any open object at the
/// end of the stream.
pub open spec fn m486_emit(
    lines: Seq<Seq<u8>>,
    i: int,
    reg: Seq<(Seq<u8>, ObjModel)>,
    cur: Option<Seq<u8>>,
) -> Seq<Seq<u8>>
    decreases lines.len() - i,
{
    if i < 0 || i >= lines.len() {
        match cur {
            Option::Some(n) => seq![end_marker(n)],
            Option::None => Seq::empty(),
        }
    } else {
        let (c, cur2) = emit_step(lines[i], reg, cur);
        c + m486_emit(lines, i + 1, reg, cur2)
    }
}

/// Everything the processor emits for the file.
pub open spec fn m486_output(lines: Seq<Seq<u8>>, f: LayerFilter) -> Seq<Seq<u8>> {
    let st = m486_scan(lines, 0, M486Scan { reg: Seq::empty(), cur: Option::None }, f);
    prelude_chunks(lines, keep_named(st.reg, 0)) + m486_emit(
        lines,
        resume_at(lines),
        st.reg,
        Option::None,
    )
}

/// How one emission step shifts the start and end counts for any one
/// name: exactly in step with the object it leaves open.
proof fn lemma_emit_step_counts(
    line: Seq<u8>,
    reg: Seq<(Seq<u8>, ObjModel)>,
    cur: Option<Seq<u8>>,
    n: Seq<u8>,
)
    requires
        !is_prefix("EXCLUDE_OBJECT_START NAME=".spec_bytes(), line),
        !is_prefix("EXCLUDE_OBJECT_END NAME=".spec_bytes(), line),
    ensures
        ({
            let (c, cur2) = emit_step(line, reg, cur);
            crate::gcode::count_eq(c, end_marker(n)) - (if cur == Option::Some(n) {
                1int
            } else {
                0
            }) == crate::gcode::count_eq(c, start_marker(n)) - (if cur2 == Option::Some(n) {
                1int
            } else {
                0
            })
        }),
{
    let sm = start_marker(n);
    let em = end_marker(n);
    if is_prefix("M486".spec_bytes(), line.map_values(|b: u8| upper_byte(b))) {
        let prm = params_of(line);
        let (c1, _): (Seq<Seq<u8>>, Option<Seq<u8>>) = if prm.contains_key("S".spec_bytes()) {
            let c0 = match cur {
                Option::Some(name) => seq![end_marker(name)],
                Option::None => Seq::empty(),
            };
            match cur {
                Option::Some(name) => {
                    crate::gcode::lemma_count_eq_single(end_marker(name), sm);
                    crate::gcode::lemma_count_eq_single(end_marker(name), em);
                    crate::gcode::lemma_start_end_markers_differ(n, name);
                    crate::gcode::lemma_end_marker_eq(name, n);
                },
                Option::None => {
                },
            }
            let id = prm["S".spec_bytes()];
            if id == "-1".spec_bytes() {
                (c0, Option::None)
            } else {
                let fidx = reg_index(reg, id);
                if fidx < reg.len() {
                    let opened = reg[fidx].1.name;
                    crate::gcode::lemma_count_eq_push(c0, start_marker(opened), sm);
                    crate::gcode::lemma_count_eq_push(c0, start_marker(opened), em);
                    crate::gcode::lemma_start_marker_eq(opened, n);
                    crate::gcode::lemma_start_end_markers_differ(opened, n);
                    (c0.push(start_marker(opened)), Option::Some(opened))
                } else {
                    (c0, Option::None)
                }
            }
        } else {
            (Seq::empty(), cur)
        };
        crate::gcode::lemma_commented_chunk_not_marker(line, n);
        crate::gcode::lemma_count_eq_push(c1, commented_chunk(line), sm);
        crate::gcode::lemma_count_eq_push(c1, commented_chunk(line), em);
    } else {
        crate::gcode::lemma_line_chunk_not_marker(line, n);
        crate::gcode::lemma_count_eq_single(line_chunk(line), sm);
        crate::gcode::lemma_count_eq_single(line_chunk(line), em);
    }
}

/// The annotated emission balances its markers: from lines `i..` with the
/// object `cur` open, every name gets exactly as many end markers as
/// start markers, plus one end for the object already open.
pub proof fn lemma_m486_emit_balanced(
    lines: Seq<Seq<u8>>,
    i: int,
    reg: Seq<(Seq<u8>, ObjModel)>,
    cur: Option<Seq<u8>>,
    n: Seq<u8>,
)
    requires
        0 <= i,
        crate::gcode::no_marker_lines(lines),
    ensures
        crate::gcode::count_eq(m486_emit(lines, i, reg, cur), end_marker(n))
            == crate::gcode::count_eq(m486_emit(lines, i, reg, cur), start_marker(n)) + (if cur
            == Option::Some(n) {
            1int
        } else {
            0
        }),
    decreases lines.len() - i,
{
    if i >= lines.len() {
        match cur {
            Option::Some(m) => {
                crate::gcode::lemma_count_eq_single(end_marker(m), end_marker(n));
                crate::gcode::lemma_count_eq_single(end_marker(m), start_marker(n));
                crate::gcode::lemma_end_marker_eq(m, n);
                crate::gcode::lemma_start_end_markers_differ(n, m);
            },
            Option::None => {
            },
        }
    } else {
        let (c, cur2) = emit_step(lines[i], reg, cur);
        lemma_emit_step_counts(lines[i], reg, cur, n);
        lemma_m486_emit_balanced(lines, i + 1, reg, cur2, n);
        crate::gcode::lemma_count_eq_concat(c, m486_emit(lines, i + 1, reg, cur2), end_marker(n));
        crate::gcode::lemma_count_eq_concat(c, m486_emit(lines, i + 1, reg, cur2), start_marker(n));
    }
}

/// Balanced annotation: for every object name, the whole M486 output
/// holds exactly as many `EXCLUDE_OBJECT_END` as `EXCLUDE_OBJECT_START`
/// chunks, for files whose own lines are not marker lines.
pub proof fn lemma_m486_output_balanced(lines: Seq<Seq<u8>>, f: LayerFilter, n: Seq<u8>)
    requires
        crate::gcode::no_marker_lines(lines),
    ensures
        crate::gcode::count_eq(m486_output(lines, f), start_marker(n)) == crate::gcode::count_eq(
            m486_output(lines, f),
            end_marker(n),
        ),
{
    let st = m486_scan(lines, 0, M486Scan { reg: Seq::empty(), cur: Option::None }, f);
    let rest = m486_emit(lines, resume_at(lines), st.reg, Option::None);
    super::lemma_first_real(lines, 0);
    super::lemma_prelude_no_markers(lines, keep_named(st.reg, 0), n);
    lemma_m486_emit_balanced(lines, resume_at(lines), st.reg, Option::None, n);
    crate::gcode::lemma_count_eq_concat(
        prelude_chunks(lines, keep_named(st.reg, 0)),
        rest,
        start_marker(n),
    );
    crate::gcode::lemma_count_eq_concat(
        prelude_chunks(lines, keep_named(st.reg, 0)),
        rest,
        end_marker(n),
    );
}

/// Declaring a run of ids keeps them distinct: each is registered only
/// when absent.
proof fn lemma_declare_ids_unique(m: Seq<(Seq<u8>, ObjModel)>, i: int, end: int)
    requires
        super::ids_unique(m),
    ensures
        super::ids_unique(declare_model(m, i, end)),
    decreases end - i,
{
    if i < end {
        let id = dec_of_int(i);
        lemma_reg_index(m, id);
        let m1 = if reg_index(m, id) < m.len() {
            m
        } else {
            m.push(new_entry_model(id, id))
        };
        assert(super::ids_unique(m1)) by {
            if !(reg_index(m, id) < m.len()) {
                assert(forall|k: int| 0 <= k < m.len() ==> m1[k] == m[k]);
                assert(m1[m.len() as int].0 == id);
                assert(forall|k: int| 0 <= k < m.len() ==> (#[trigger] m[k]).0 != id);
            }
        }
        lemma_declare_ids_unique(m1, i + 1, end);
    }
}

/// One discovery step keeps the registry ids distinct.
proof fn lemma_scan_step_ids_unique(st: M486Scan, line: Seq<u8>, f: LayerFilter)
    requires
        super::ids_unique(st.reg),
    ensures
        super::ids_unique(scan_step(st, line, f).reg),
{
    let prm = params_of(line);
    if is_prefix("M486".spec_bytes(), line) {
        if prm.contains_key("T".spec_bytes()) {
            match parse_isize_spec(prm["T".spec_bytes()]) {
                Option::Some(end) => {
                    lemma_declare_ids_unique(st.reg, -1, end);
                },
                Option::None => {
                },
            }
        } else if prm.contains_key("S".spec_bytes()) {
            let id = prm["S".spec_bytes()];
            if reg_index(st.reg, id) < st.reg.len() {
                lemma_reg_index(st.reg, id);
                let i = reg_index(st.reg, id);
                assert(forall|k: int|
                    0 <= k < st.reg.len() ==> (#[trigger] bump_model(st.reg, i)[k]).0
                        == st.reg[k].0);
            }
        }
    }
    let st1 = scan_pre(st, line, f);
    assert(super::ids_unique(st1.reg));
    match st1.cur {
        Option::Some(id) => {
            if reg_index(st1.reg, id) < st1.reg.len() {
                lemma_reg_index(st1.reg, id);
                let i = reg_index(st1.reg, id);
                assert(forall|k: int|
                    0 <= k < st1.reg.len() ==> (#[trigger] collect_model_eff(
                        st1.reg,
                        i,
                        line,
                        f,
                    )[k]).0 == st1.reg[k].0);
            }
        },
        Option::None => {
        },
    }
}

/// The discovery pass keeps the registry ids distinct.
pub proof fn lemma_scan_ids_unique(lines: Seq<Seq<u8>>, i: int, st: M486Scan, f: LayerFilter)
    requires
        super::ids_unique(st.reg),
    ensures
        super::ids_unique(m486_scan(lines, i, st, f).reg),
    decreases lines.len() - i,
{
    if 0 <= i < lines.len() {
        lemma_scan_step_ids_unique(st, lines[i], f);
        lemma_scan_ids_unique(lines, i + 1, scan_step(st, lines[i], f), f);
    }
}

/// The annotated emission adds no definition line.
proof fn lemma_emit_no_defines(
    lines: Seq<Seq<u8>>,
    i: int,
    reg: Seq<(Seq<u8>, ObjModel)>,
    cur: Option<Seq<u8>>,
)
    requires
        super::no_define_lines(lines),
        0 <= i,
    ensures
        crate::gcode::count_pref(
            m486_emit(lines, i, reg, cur),
            "EXCLUDE_OBJECT_DEFINE NAME=".spec_bytes(),
        ) == 0,
    decreases lines.len() - i,
{
    let p = "EXCLUDE_OBJECT_DEFINE NAME=".spec_bytes();
    if i >= lines.len() {
        match cur {
            Option::Some(n) => {
                assert(seq![end_marker(n)] =~= Seq::<Seq<u8>>::empty().push(end_marker(n)));
                crate::gcode::lemma_push_marker_keeps_defines(Seq::empty(), n);
            },
            Option::None => {
            },
        }
    } else {
        let (c, cur2) = emit_step(lines[i], reg, cur);
        lemma_emit_no_defines(lines, i + 1, reg, cur2);
        crate::gcode::lemma_count_pref_concat(c, m486_emit(lines, i + 1, reg, cur2), p);
        let line = lines[i];
        crate::gcode::lemma_line_chunks_count_free(line);
        crate::gcode::lemma_line_chunk_no_define(line);
        assert(crate::gcode::count_pref(c, p) == 0) by {
            if is_prefix("M486".spec_bytes(), line.map_values(|b: u8| upper_byte(b))) {
                let prm = params_of(line);
                let (c1, _): (Seq<Seq<u8>>, Option<Seq<u8>>) = if prm.contains_key(
                    "S".spec_bytes(),
                ) {
                    let c0 = match cur {
                        Option::Some(n) => seq![end_marker(n)],
                        Option::None => Seq::empty(),
                    };
                    match cur {
                        Option::Some(n) => {
                            assert(seq![end_marker(n)] =~= Seq::<Seq<u8>>::empty().push(
                                end_marker(n),
                            ));
                            crate::gcode::lemma_push_marker_keeps_defines(Seq::empty(), n);
                        },
                        Option::None => {
                        },
                    }
                    let id = prm["S".spec_bytes()];
                    if id == "-1".spec_bytes() {
                        (c0, Option::None)
                    } else {
                        let fidx = reg_index(reg, id);
                        if fidx < reg.len() {
                            crate::gcode::lemma_push_marker_keeps_defines(c0, reg[fidx].1.name);
                            (
                                c0.push(start_marker(reg[fidx].1.name)),
                                Option::Some(reg[fidx].1.name),
                            )
                        } else {
                            (c0, Option::None)
                        }
                    }
                } else {
                    (Seq::empty(), cur)
                };
                assert(crate::gcode::count_pref(c1, p) == 0);
                crate::gcode::lemma_count_pref_push(c1, crate::gcode::commented_chunk(line), p);
            }
        }
    }
}

/// Exactly one annotation header: for a file whose own lines carry no
/// definition word — as every file the driver hands to a processor does —
/// the whole output holds exactly one `EXCLUDE_OBJECT_DEFINE` chunk per
/// declared object other than the `-1` sentinel, all inside the single
/// header block, and the declared ids are pairwise distinct. A file with
/// no line to print gets no header at all.
pub proof fn lemma_single_header(lines: Seq<Seq<u8>>, f: LayerFilter)
    requires
        super::no_define_lines(lines),
    ensures
        ({
            let st = m486_scan(lines, 0, M486Scan { reg: Seq::empty(), cur: Option::None }, f);
            &&& super::ids_unique(st.reg)
            &&& crate::gcode::count_pref(
                m486_output(lines, f),
                "EXCLUDE_OBJECT_DEFINE NAME=".spec_bytes(),
            ) == if super::first_real(lines, 0) < lines.len() {
                keep_named(st.reg, 0).len() as int
            } else {
                0
            }
        }),
{
    let p = "EXCLUDE_OBJECT_DEFINE NAME=".spec_bytes();
    let init = M486Scan { reg: Seq::empty(), cur: Option::None };
    let st = m486_scan(lines, 0, init, f);
    super::lemma_first_real(lines, 0);
    lemma_scan_ids_unique(lines, 0, init, f);
    super::lemma_prelude_defines_count(lines, keep_named(st.reg, 0));
    lemma_emit_no_defines(lines, resume_at(lines), st.reg, Option::None);
    crate::gcode::lemma_count_pref_concat(
        prelude_chunks(lines, keep_named(st.reg, 0)),
        m486_emit(lines, resume_at(lines), st.reg, Option::None),
        p,
    );
}

/// Declaring a run of ids keeps refinement: both registries gain the
/// same fresh entries.
proof fn lemma_declare_monotone(
    m1: Seq<(Seq<u8>, ObjModel)>,
    m2: Seq<(Seq<u8>, ObjModel)>,
    i: int,
    end: int,
)
    requires
        super::reg_refines(m1, m2),
    ensures
        super::reg_refines(declare_model(m1, i, end), declare_model(m2, i, end)),
    decreases end - i,
{
    if i < end {
        let id = dec_of_int(i);
        super::lemma_reg_index_refines(m1, m2, id);
        let a1 = if reg_index(m1, id) < m1.len() {
            m1
        } else {
            m1.push(new_entry_model(id, id))
        };
        let a2 = if reg_index(m2, id) < m2.len() {
            m2
        } else {
            m2.push(new_entry_model(id, id))
        };
        assert(super::reg_refines(a1, a2)) by {
            if !(reg_index(m1, id) < m1.len()) {
                assert(forall|k: int| 0 <= k < m1.len() ==> a1[k] == m1[k] && a2[k] == m2[k]);
                assert(a1[m1.len() as int] == new_entry_model(id, id));
                assert(a2[m2.len() as int] == new_entry_model(id, id));
            }
        }
        lemma_declare_monotone(a1, a2, i + 1, end);
    }
}

/// Point collection keeps refinement, whatever the layer counter holds.
proof fn lemma_collect_eff_refines(
    m1: Seq<(Seq<u8>, ObjModel)>,
    m2: Seq<(Seq<u8>, ObjModel)>,
    i: int,
    line: Seq<u8>,
    f1: LayerFilter,
    f2: LayerFilter,
)
    requires
        super::filter_le(f1, f2),
        super::reg_refines(m1, m2),
        0 <= i < m1.len(),
    ensures
        super::reg_refines(
            collect_model_eff(m1, i, line, f1),
            collect_model_eff(m2, i, line, f2),
        ),
{
    super::lemma_maybe_points_monotone(
        line,
        super::eff_layer(m1[i].1.layer),
        m1[i].1.points,
        m2[i].1.points,
        f1,
        f2,
    );
    assert(forall|k: int|
        0 <= k < m1.len() && k != i ==> collect_model_eff(m1, i, line, f1)[k] == m1[k]
            && collect_model_eff(m2, i, line, f2)[k] == m2[k]);
}

/// One discovery step keeps refinement: under a narrower filter it
/// declares the same objects and collects at most the same points.
proof fn lemma_scan_step_monotone(
    st1: M486Scan,
    st2: M486Scan,
    line: Seq<u8>,
    f1: LayerFilter,
    f2: LayerFilter,
)
    requires
        super::filter_le(f1, f2),
        super::reg_refines(st1.reg, st2.reg),
        st1.cur == st2.cur,
    ensures
        super::reg_refines(scan_step(st1, line, f1).reg, scan_step(st2, line, f2).reg),
        scan_step(st1, line, f1).cur == scan_step(st2, line, f2).cur,
{
    let prm = params_of(line);
    if is_prefix("M486".spec_bytes(), line) {
        if prm.contains_key("T".spec_bytes()) {
            match parse_isize_spec(prm["T".spec_bytes()]) {
                Option::Some(end) => {
                    lemma_declare_monotone(st1.reg, st2.reg, -1, end);
                },
                Option::None => {
                },
            }
        } else if prm.contains_key("S".spec_bytes()) {
            let id = prm["S".spec_bytes()];
            super::lemma_reg_index_refines(st1.reg, st2.reg, id);
            if reg_index(st1.reg, id) < st1.reg.len() {
                lemma_reg_index(st1.reg, id);
                let i = reg_index(st1.reg, id);
                assert(super::reg_refines(
                    bump_model(st1.reg, i),
                    bump_model(st2.reg, i),
                )) by {
                    assert(forall|k: int|
                        0 <= k < st1.reg.len() && k != i ==> bump_model(st1.reg, i)[k]
                            == st1.reg[k] && bump_model(st2.reg, i)[k] == st2.reg[k]);
                }
            }
        }
    }
    let s1 = scan_pre(st1, line, f1);
    let s2 = scan_pre(st2, line, f2);
    assert(super::reg_refines(s1.reg, s2.reg) && s1.cur == s2.cur);
    match s1.cur {
        Option::Some(id) => {
            super::lemma_reg_index_refines(s1.reg, s2.reg, id);
            if reg_index(s1.reg, id) < s1.reg.len() {
                lemma_reg_index(s1.reg, id);
                lemma_collect_eff_refines(s1.reg, s2.reg, reg_index(s1.reg, id), line, f1, f2);
            }
        },
        Option::None => {
        },
    }
}

/// Restricting the layer filter cannot grow a hull: from refining states,
/// the discovery pass under a narrower filter names the same objects,
/// with the same layer counts, and holds for each a subset of the points
/// it collects under the wider filter.
pub proof fn lemma_scan_monotone(
    lines: Seq<Seq<u8>>,
    i: int,
    st1: M486Scan,
    st2: M486Scan,
    f1: LayerFilter,
    f2: LayerFilter,
)
    requires
        super::filter_le(f1, f2),
        super::reg_refines(st1.reg, st2.reg),
        st1.cur == st2.cur,
    ensures
        super::reg_refines(m486_scan(lines, i, st1, f1).reg, m486_scan(lines, i, st2, f2).reg),
    decreases lines.len() - i,
{
    if 0 <= i < lines.len() {
        lemma_scan_step_monotone(st1, st2, lines[i], f1, f2);
        lemma_scan_monotone(
            lines,
            i + 1,
            scan_step(st1, lines[i], f1),
            scan_step(st2, lines[i], f2),
            f1,
            f2,
        );
    }
}

/// Restricting the layer filter shrinks or keeps each object's point
/// set, never grows it: the discovery pass under a narrower filter finds
/// the same objects and, for each, a subset of the points found under
/// the wider filter. The outline built from those points can then only
/// shrink or stay.
pub proof fn lemma_narrower_filter_collects_subset(
    lines: Seq<Seq<u8>>,
    f1: LayerFilter,
    f2: LayerFilter,
)
    requires
        super::filter_le(f1, f2),
    ensures
        super::reg_refines(
            m486_scan(lines, 0, M486Scan { reg: Seq::empty(), cur: Option::None }, f1).reg,
            m486_scan(lines, 0, M486Scan { reg: Seq::empty(), cur: Option::None }, f2).reg,
        ),
{
    let init = M486Scan { reg: Seq::empty(), cur: Option::None };
    lemma_scan_monotone(lines, 0, init, init, f1, f2);
}

pub struct M486Processor {
}

impl M486Processor {
    pub fn new() -> (r: Self) {
        Self {  }
    }

    /// Two passes over the file's lines: discover the declared objects
    /// and their points, then re-emit the file with the header and the
    /// object start/end markers, commenting the `M486` lines out.
    pub fn process(&self, lines: &Vec<Vec<u8>>, layer_filter: &LayerFilter) -> (r: Vec<Vec<u8>>)
        requires
            layer_filter.wf(),
            lines@.len() <= isize::MAX,
        ensures
            r.deep_view() == m486_output(lines.deep_view(), *layer_filter),
    {
        let ghost lv = lines.deep_view();
        let ghost f = *layer_filter;
        let ghost init = M486Scan { reg: Seq::empty(), cur: Option::None };
        let mut registry: Vec<(Vec<u8>, KnownObject)> = Vec::new();
        let mut current: Option<Vec<u8>> = Option::None;
        let mut i: usize = 0;
        proof {
            assert(reg_model(registry@) =~= init.reg);
        }
        while i < lines.len()
            invariant
                i <= lv.len() == lines@.len(),
                lv.len() <= isize::MAX,
                f == *layer_filter,
                f.wf(),
                objects_wf(registry@),
                m486_scan(lv, 0, init, f) == m486_scan(
                    lv,
                    i as int,
                    M486Scan { reg: reg_model(registry@), cur: view_opt(current) },
                    f,
                ),
                forall|k: int|
                    0 <= k < reg_model(registry@).len() ==> -1 <= (#[trigger] reg_model(
                        registry@,
                    )[k]).1.layer < i as int,
            decreases lv.len() - i,
        {
            let line = &lines[i];
            assert(line@ == lv[i as int]);
            let ghost st = M486Scan { reg: reg_model(registry@), cur: view_opt(current) };
            if starts_with(line, "M486") {
                let cmd = parse_gcode(line);
                match cmd.get("T") {
                    Option::Some(tv) => {
                        match parse_isize(tv) {
                            Option::Some(end) => {
                                let mut k: isize = -1;
                                proof {
                                    assert(declare_model(st.reg, -1, end as int) == declare_model(
                                        reg_model(registry@),
                                        k as int,
                                        end as int,
                                    ));
                                }
                                while k < end
                                    invariant
                                        -1 <= k,
                                        k <= end || k == -1,
                                        objects_wf(registry@),
                                        declare_model(st.reg, -1, end as int) == declare_model(
                                            reg_model(registry@),
                                            k as int,
                                            end as int,
                                        ),
                                        forall|t: int|
                                            0 <= t < reg_model(registry@).len() ==> -1 <= (
                                            #[trigger] reg_model(registry@)[t]).1.layer < i as int
                                                + 1,
                                    decreases end - k,
                                {
                                    let ghost mk = reg_model(registry@);
                                    let id = fmt_isize(k);
                                    proof {
                                        assert(mk.len() == registry@.len());
                                        lemma_reg_index(mk, id@);
                                    }
                                    let ghost m1 = if reg_index(mk, id@) < mk.len() {
                                        mk
                                    } else {
                                        mk.push(new_entry_model(id@, id@))
                                    };
                                    let found = reg_find(&registry, &id);
                                    if found == registry.len() {
                                        reg_insert(&mut registry, &id, &id);
                                    }
                                    proof {
                                        assert(reg_model(registry@) == m1);
                                        assert(id@ == dec_of_int(k as int));
                                        assert(declare_model(mk, k as int, end as int)
                                            == declare_model(m1, k + 1, end as int));
                                    }
                                    k = k + 1;
                                }
                            },
                            Option::None => {},
                        }
                    },
                    Option::None => {
                        match cmd.get("S") {
                            Option::Some(sv) => {
                                let id = copy_bytes(sv);
                                let found = reg_find(&registry, &id);
                                proof {
                                    lemma_reg_index(reg_model(registry@), id@);
                                }
                                if found < registry.len() {
                                    reg_bump(&mut registry, found);
                                }
                                current = Option::Some(id);
                            },
                            Option::None => {},
                        }
                    },
                }
            }
            let ghost st1 = M486Scan { reg: reg_model(registry@), cur: view_opt(current) };
            match &current {
                Option::Some(id) => {
                    let found = reg_find(&registry, id);
                    proof {
                        lemma_reg_index(reg_model(registry@), id@);
                    }
                    if found < registry.len() {
                        reg_collect_eff(&mut registry, found, line, layer_filter);
                    }
                },
                Option::None => {},
            }
            proof {
                let st2 = M486Scan { reg: reg_model(registry@), cur: view_opt(current) };
                assert(st2 =~~= scan_step(st, lv[i as int], f));
            }
            i = i + 1;
        }
        let ghost fin = m486_scan(lv, 0, init, f);
        proof {
            assert(fin =~~= M486Scan { reg: reg_model(registry@), cur: view_opt(current) });
        }
        // The header lists every declared object but the `-1` sentinel.
        let mut header_registry: Vec<(Vec<u8>, KnownObject)> = Vec::new();
        let mut h: usize = 0;
        proof {
            assert(reg_model(header_registry@) + keep_named(fin.reg, 0) =~= keep_named(fin.reg, 0));
        }
        while h < registry.len()
            invariant
                h <= registry@.len(),
                fin.reg == reg_model(registry@),
                reg_model(header_registry@) + keep_named(fin.reg, h as int) == keep_named(
                    fin.reg,
                    0,
                ),
            decreases registry@.len() - h,
        {
            let ghost prev = reg_model(header_registry@);
            let entry = &registry[h];
            if !eq_str(&entry.0, "-1") {
                let copied = (copy_bytes(&entry.0), entry.1.duplicate());
                header_registry.push(copied);
                proof {
                    assert(reg_model(header_registry@) =~~= prev.push(fin.reg[h as int]));
                    assert(prev.push(fin.reg[h as int]) + keep_named(fin.reg, h + 1) =~= prev
                        + keep_named(fin.reg, h as int));
                }
            } else {
                proof {
                    assert(keep_named(fin.reg, h as int) == keep_named(fin.reg, h + 1));
                }
            }
            h = h + 1;
        }
        proof {
            assert(keep_named(fin.reg, registry@.len() as int) =~= Seq::<(Seq<u8>, ObjModel)>::empty());
            assert(reg_model(header_registry@) =~= keep_named(fin.reg, 0));
        }
        // Second pass: the prelude and header, then the annotated
        // remainder against the frozen registry.
        let mut out: Vec<Vec<u8>> = Vec::new();
        let mut j = emit_prelude(lines, &header_registry, &mut out);
        let mut open: Option<Vec<u8>> = Option::None;
        while j < lines.len()
            invariant
                resume_at(lv) <= j <= lv.len() == lines@.len(),
                fin.reg == reg_model(registry@),
                fin == m486_scan(lv, 0, init, f),
                out.deep_view() + m486_emit(lv, j as int, fin.reg, view_opt(open))
                    == prelude_chunks(lv, keep_named(fin.reg, 0)) + m486_emit(
                    lv,
                    resume_at(lv),
                    fin.reg,
                    Option::None,
                ),
            decreases lv.len() - j,
        {
            let line = &lines[j];
            assert(line@ == lv[j as int]);
            let ghost cur0: Option<Seq<u8>> = view_opt(open);
            let ghost out0 = out.deep_view();
            if starts_with_upper(line, "M486") {
                let cmd = parse_gcode(line);
                match cmd.get("S") {
                    Option::Some(sv) => {
                        let id = copy_bytes(sv);
                        match &open {
                            Option::Some(n) => {
                                let em = crate::gcode::exclude_object_end(n);
                                let ghost prev = out.deep_view();
                                let ghost nv = n@;
                                out.push(em);
                                proof {
                                    assert(out.deep_view() =~~= prev.push(end_marker(nv)));
                                }
                                open = Option::None;
                            },
                            Option::None => {},
                        }
                        if !eq_str(&id, "-1") {
                            proof {
                                lemma_reg_index(fin.reg, id@);
                            }
                            let found = reg_find(&registry, &id);
                            if found < registry.len() {
                                let name = copy_bytes(&registry[found].1.name);
                                let sm = crate::gcode::exclude_object_start(&name);
                                let ghost prev = out.deep_view();
                                out.push(sm);
                                proof {
                                    assert(out.deep_view() =~~= prev.push(
                                        start_marker(fin.reg[found as int].1.name),
                                    ));
                                }
                                open = Option::Some(name);
                            } else {
                                open = Option::None;
                            }
                        }
                    },
                    Option::None => {},
                }
                push_commented_chunk(&mut out, line);
            } else {
                push_line_chunk(&mut out, line);
            }
            proof {
                let (c, cur2) = emit_step(lv[j as int], fin.reg, cur0);
                assert(out.deep_view() =~= out0 + c);
                assert(cur2 == view_opt(open));
            }
            j = j + 1;
        }
        match &open {
            Option::Some(n) => {
                let em = crate::gcode::exclude_object_end(n);
                let ghost prev = out.deep_view();
                let ghost nv = n@;
                out.push(em);
                proof {
                    assert(out.deep_view() =~~= prev.push(end_marker(nv)));
                    assert(out.deep_view() =~= prelude_chunks(lv, keep_named(fin.reg, 0))
                        + m486_emit(lv, resume_at(lv), fin.reg, Option::None));
                }
            },
            Option::None => {
                proof {
                    assert(out.deep_view() =~= prelude_chunks(lv, keep_named(fin.reg, 0))
                        + m486_emit(lv, resume_at(lv), fin.reg, Option::None));
                }
            },
        }
        out
    }
}

} // verus!
