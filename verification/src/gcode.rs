//! The line command model: one G-code line parsed into an optional command
//! word and a map of parameter keys to values, with the comment stripped.

use vstd::prelude::*;

verus! {

use vstd::string::StringSliceAdditionalSpecFns;
use crate::text::{
    EQUALS, NL, SEMICOLON, bytes_eq, copy_bytes, dec_of, find_byte, find_idx, fmt_usize, is_ws,
    lemma_find_idx, push_all, push_str, str_bytes, subv, trim, trim_spec,
};
use crate::hulls::{HullTracker, KnownObject, ObjModel, polygon_text_of, reg_model};

/// The line up to its `;` comment, trimmed.
pub open spec fn content_of(line: Seq<u8>) -> Seq<u8> {
    let i = find_idx(line, SEMICOLON);
    if 0 <= i < line.len() {
        trim_spec(line.subrange(0, i))
    } else {
        trim_spec(line)
    }
}

/// First index at or after `i` that holds whitespace, or the length.
pub open spec fn token_end(s: Seq<u8>, i: int) -> int
    decreases s.len() - i,
{
    if i < 0 || i >= s.len() || is_ws(s[i]) {
        i
    } else {
        token_end(s, i + 1)
    }
}

pub proof fn lemma_token_end(s: Seq<u8>, i: int)
    requires
        0 <= i <= s.len(),
    ensures
        i <= token_end(s, i) <= s.len(),
        forall|k: int| i <= k < token_end(s, i) ==> !is_ws(s[k]),
        token_end(s, i) < s.len() ==> is_ws(s[token_end(s, i)]),
    decreases s.len() - i,
{
    if i < s.len() && !is_ws(s[i]) {
        lemma_token_end(s, i + 1);
    }
}

/// Establishes `token_end` from its characterisation.
pub proof fn lemma_token_end_is(s: Seq<u8>, i: int, j: int)
    requires
        0 <= i <= j <= s.len(),
        forall|k: int| i <= k < j ==> !is_ws(s[k]),
        j == s.len() || is_ws(s[j]),
    ensures
        token_end(s, i) == j,
{
    lemma_token_end(s, i);
    let e = token_end(s, i);
    if e < j {
        assert(!is_ws(s[e]));
    }
    if e > j {
        assert(!is_ws(s[j]));
    }
}

/// The whitespace-separated tokens of `s`, from index `i` on.
pub open spec fn tokens_from(s: Seq<u8>, i: int) -> Seq<Seq<u8>>
    decreases s.len() - i,
        via tokens_from_decreases
{
    if i < 0 || i >= s.len() {
        Seq::empty()
    } else if is_ws(s[i]) {
        tokens_from(s, i + 1)
    } else {
        seq![s.subrange(i, token_end(s, i))] + tokens_from(s, token_end(s, i))
    }
}

#[via_fn]
proof fn tokens_from_decreases(s: Seq<u8>, i: int) {
    if 0 <= i < s.len() && !is_ws(s[i]) {
        lemma_token_end(s, i);
        assert(token_end(s, i) > i) by {
            if token_end(s, i) == i {
                assert(is_ws(s[i]) || i >= s.len());
            }
        }
    }
}

/// The tokens of the trimmed, comment-free line.
pub open spec fn tokens_of(line: Seq<u8>) -> Seq<Seq<u8>> {
    tokens_from(content_of(line), 0)
}

/// The command word, when the line has one.
pub open spec fn command_of(line: Seq<u8>) -> Option<Seq<u8>> {
    let toks = tokens_of(line);
    if toks.len() == 0 {
        Option::None
    } else {
        Option::Some(toks[0])
    }
}

/// How many bytes the UTF-8 character led by `b` occupies; a byte that
/// leads no character counts for one.
pub open spec fn utf8_len(b: u8) -> int {
    if b < 0xC0 {
        1
    } else if b < 0xE0 {
        2
    } else if b < 0xF0 {
        3
    } else if b < 0xF8 {
        4
    } else {
        1
    }
}

/// Key and value of one parameter token: `K=V` splits at the first `=`;
/// otherwise the first character is the key and the rest the value.
pub open spec fn param_entry(tok: Seq<u8>) -> (Seq<u8>, Seq<u8>) {
    let e = find_idx(tok, EQUALS);
    if 0 <= e < tok.len() {
        (tok.subrange(0, e), tok.subrange(e + 1, tok.len() as int))
    } else {
        let k = if tok.len() == 0 {
            0
        } else if utf8_len(tok[0]) <= tok.len() {
            utf8_len(tok[0])
        } else {
            tok.len() as int
        };
        (tok.subrange(0, k), tok.subrange(k, tok.len() as int))
    }
}

/// The parameter map built from tokens `1..i`, later entries replacing
/// earlier ones of the same key.
pub open spec fn params_upto(toks: Seq<Seq<u8>>, i: int) -> Map<Seq<u8>, Seq<u8>>
    decreases i,
{
    if i <= 1 {
        Map::empty()
    } else {
        params_upto(toks, i - 1).insert(param_entry(toks[i - 1]).0, param_entry(toks[i - 1]).1)
    }
}

/// The parameter map of a whole line.
pub open spec fn params_of(line: Seq<u8>) -> Map<Seq<u8>, Seq<u8>> {
    params_upto(tokens_of(line), tokens_of(line).len() as int)
}

/// One parsed line: the optional command word and its parameters.
pub struct Command {
    pub command: Option<Vec<u8>>,
    pub params: Vec<(Vec<u8>, Vec<u8>)>,
}

/// The association list built by `Command::params`, read as a map.
pub open spec fn assoc_map(ps: Seq<(Vec<u8>, Vec<u8>)>) -> Map<Seq<u8>, Seq<u8>>
    decreases ps.len(),
{
    if ps.len() == 0 {
        Map::empty()
    } else {
        assoc_map(ps.drop_last()).insert(ps.last().0@, ps.last().1@)
    }
}

pub open spec fn unique_keys(ps: Seq<(Vec<u8>, Vec<u8>)>) -> bool {
    forall|i: int, j: int| 0 <= i < j < ps.len() ==> (#[trigger] ps[i]).0@ != (#[trigger] ps[j]).0@
}

pub proof fn lemma_assoc_lookup(ps: Seq<(Vec<u8>, Vec<u8>)>, k: Seq<u8>)
    requires
        unique_keys(ps),
    ensures
        assoc_map(ps).contains_key(k) <==> exists|i: int| 0 <= i < ps.len() && (#[trigger] ps[i]).0@
            == k,
        forall|i: int|
            0 <= i < ps.len() && (#[trigger] ps[i]).0@ == k ==> assoc_map(ps)[k] == ps[i].1@,
    decreases ps.len(),
{
    if ps.len() > 0 {
        let t = ps.drop_last();
        assert(unique_keys(t)) by {
            assert(forall|i: int, j: int|
                0 <= i < j < t.len() ==> (#[trigger] t[i]).0@ != (#[trigger] t[j]).0@) by {
                assert(forall|i: int| 0 <= i < t.len() ==> t[i] == ps[i]);
            }
        }
        lemma_assoc_lookup(t, k);
        if ps.last().0@ == k {
            assert(ps[ps.len() - 1].0@ == k);
            assert(forall|i: int|
                0 <= i < ps.len() && (#[trigger] ps[i]).0@ == k ==> i == ps.len() - 1);
        } else {
            assert(forall|i: int|
                0 <= i < ps.len() && (#[trigger] ps[i]).0@ == k ==> (0 <= i < t.len() && t[i].0@
                    == k));
        }
    }
}

pub proof fn lemma_assoc_push(ps: Seq<(Vec<u8>, Vec<u8>)>, e: (Vec<u8>, Vec<u8>))
    ensures
        assoc_map(ps.push(e)) == assoc_map(ps).insert(e.0@, e.1@),
{
    assert(ps.push(e).drop_last() =~= ps);
    assert(ps.push(e).last() == e);
}

pub proof fn lemma_assoc_update(ps: Seq<(Vec<u8>, Vec<u8>)>, idx: int, e: (Vec<u8>, Vec<u8>))
    requires
        unique_keys(ps),
        0 <= idx < ps.len(),
        ps[idx].0@ == e.0@,
    ensures
        assoc_map(ps.update(idx, e)) == assoc_map(ps).insert(e.0@, e.1@),
    decreases ps.len(),
{
    let t = ps.drop_last();
    assert(unique_keys(t)) by {
        assert(forall|i: int| 0 <= i < t.len() ==> t[i] == ps[i]);
    }
    if idx == ps.len() - 1 {
        assert(ps.update(idx, e).drop_last() =~= t);
        assert(ps.update(idx, e).last() == e);
        assert(assoc_map(t).insert(ps.last().0@, ps.last().1@).insert(e.0@, e.1@) =~= assoc_map(
            t,
        ).insert(e.0@, e.1@));
    } else {
        assert(ps.update(idx, e).drop_last() =~= t.update(idx, e));
        assert(ps.update(idx, e).last() == ps.last());
        lemma_assoc_update(t, idx, e);
        assert(ps[idx] == t[idx]);
        assert(ps.last().0@ != e.0@) by {
            assert(ps[idx].0@ != ps[ps.len() - 1].0@);
        }
        assert(assoc_map(t).insert(e.0@, e.1@).insert(ps.last().0@, ps.last().1@) =~= assoc_map(
            t,
        ).insert(ps.last().0@, ps.last().1@).insert(e.0@, e.1@));
    }
}

impl Command {
    /// The association list behaves as a map: keys are unique.
    pub open spec fn wf(&self) -> bool {
        unique_keys(self.params@)
    }

    pub open spec fn params_map(&self) -> Map<Seq<u8>, Seq<u8>> {
        assoc_map(self.params@)
    }

    /// The value of the parameter named by the literal `key`.
    pub fn get(&self, key: &str) -> (r: Option<&Vec<u8>>)
        requires
            self.wf(),
        ensures
            match r {
                Option::Some(v) => self.params_map().contains_key(key.spec_bytes())
                    && v@ == self.params_map()[key.spec_bytes()],
                Option::None => !self.params_map().contains_key(key.spec_bytes()),
            },
    {
        proof {
            lemma_assoc_lookup(self.params@, key.spec_bytes());
        }
        let kb = key.as_bytes();
        let mut i: usize = 0;
        while i < self.params.len()
            invariant
                i <= self.params@.len(),
                kb@ == key.spec_bytes(),
                forall|k: int| 0 <= k < i ==> (#[trigger] self.params@[k]).0@ != kb@,
            decreases self.params@.len() - i,
        {
            let (k, _) = &self.params[i];
            if k.len() == kb.len() {
                let mut j: usize = 0;
                let mut same = true;
                while j < kb.len()
                    invariant
                        j <= kb@.len() == k@.len(),
                        same ==> forall|t: int| 0 <= t < j ==> k@[t] == kb@[t],
                        !same ==> k@ != kb@,
                    decreases kb@.len() - j,
                {
                    if k[j] != kb[j] {
                        same = false;
                        assert(k@[j as int] != kb@[j as int]);
                        j = kb.len();
                    } else {
                        j = j + 1;
                    }
                }
                if same {
                    assert(k@ =~= kb@);
                    return Option::Some(&self.params[i].1);
                }
            } else {
                assert(self.params@[i as int].0@ != kb@);
            }
            i = i + 1;
        }
        Option::None
    }
}

/// Replace the value of `key`, or append a new entry.
fn upsert(params: &mut Vec<(Vec<u8>, Vec<u8>)>, key: Vec<u8>, value: Vec<u8>)
    requires
        unique_keys(old(params)@),
    ensures
        unique_keys(final(params)@),
        assoc_map(final(params)@) == assoc_map(old(params)@).insert(key@, value@),
{
    let ghost ps0 = params@;
    let mut i: usize = 0;
    while i < params.len()
        invariant
            params@ == ps0,
            i <= ps0.len(),
            forall|k: int| 0 <= k < i ==> (#[trigger] ps0[k]).0@ != key@,
        decreases ps0.len() - i,
    {
        if bytes_eq(&params[i].0, &key) {
            proof {
                lemma_assoc_update(ps0, i as int, (key, value));
            }
            params[i] = (key, value);
            proof {
                assert(unique_keys(params@)) by {
                    assert(forall|k: int|
                        0 <= k < params@.len() ==> (#[trigger] params@[k]).0@ == ps0[k].0@);
                }
            }
            return ;
        }
        i = i + 1;
    }
    proof {
        lemma_assoc_push(ps0, (key, value));
    }
    params.push((key, value));
    proof {
        assert(unique_keys(params@)) by {
            assert(forall|k: int| 0 <= k < ps0.len() ==> params@[k] == ps0[k]);
            assert(params@[ps0.len() as int].0@ == key@);
        }
    }
}

/// Collect the whitespace-separated tokens of `s`.
fn tokenize(s: &Vec<u8>) -> (r: Vec<Vec<u8>>)
    ensures
        r.deep_view() == tokens_from(s@, 0),
{
    let mut r: Vec<Vec<u8>> = Vec::new();
    let mut i: usize = 0;
    proof {
        assert(r.deep_view() =~= Seq::<Seq<u8>>::empty());
    }
    while i < s.len()
        invariant
            i <= s@.len(),
            r.deep_view() + tokens_from(s@, i as int) == tokens_from(s@, 0),
        decreases s@.len() - i,
    {
        if ws_exec(s[i]) {
            i = i + 1;
        } else {
            let ghost prev = r.deep_view();
            let start = i;
            let mut j: usize = i;
            while j < s.len() && !ws_exec(s[j])
                invariant
                    start <= j <= s@.len(),
                    forall|k: int| start <= k < j ==> !is_ws(s@[k]),
                decreases s@.len() - j,
            {
                j = j + 1;
            }
            proof {
                lemma_token_end_is(s@, start as int, j as int);
            }
            let tok = subv(s, start, j);
            r.push(tok);
            proof {
                assert(r.deep_view() =~~= prev.push(tok@));
                assert(tokens_from(s@, start as int) == seq![s@.subrange(
                    start as int,
                    j as int,
                )] + tokens_from(s@, j as int));
                assert(prev.push(tok@) + tokens_from(s@, j as int) =~= prev + tokens_from(
                    s@,
                    start as int,
                ));
            }
            i = j;
        }
    }
    r
}

/// Exec mirror of `is_ws`, local so the tokenizer reads naturally.
fn ws_exec(b: u8) -> (r: bool)
    ensures
        r == is_ws(b),
{
    b == 32 || b == 9 || b == 10 || b == 11 || b == 12 || b == 13
}

/// Parse one line: strip the comment, trim, split the command word off,
/// and read the remaining tokens as parameters.
pub fn parse_gcode(line: &Vec<u8>) -> (r: Command)
    ensures
        r.wf(),
        match r.command {
            Option::Some(c) => command_of(line@) == Option::Some(c@),
            Option::None => command_of(line@) is None,
        },
        r.params_map() == params_of(line@),
{
    let semi = find_byte(line, SEMICOLON);
    proof {
        lemma_find_idx(line@, SEMICOLON);
    }
    let stripped = if semi < line.len() {
        subv(line, 0, semi)
    } else {
        subv(line, 0, line.len())
    };
    proof {
        if semi == line@.len() {
            assert(stripped@ =~= line@);
        }
    }
    let content = trim(&stripped);
    assert(content@ == content_of(line@));
    let toks = tokenize(&content);
    let ghost toks_v = tokens_of(line@);
    assert(toks.deep_view() == toks_v);
    let mut command: Option<Vec<u8>> = Option::None;
    if toks.len() > 0 {
        command = Option::Some(copy_bytes(&toks[0]));
    }
    let mut params: Vec<(Vec<u8>, Vec<u8>)> = Vec::new();
    let mut i: usize = 1;
    proof {
        assert(unique_keys(params@));
        assert(assoc_map(params@) =~= params_upto(toks_v, 1));
    }
    if toks.len() == 0 {
        proof {
            assert(params_of(line@) =~= Map::<Seq<u8>, Seq<u8>>::empty());
        }
        return Command { command, params };
    }
    while i < toks.len()
        invariant
            1 <= i <= toks_v.len(),
            toks.deep_view() == toks_v,
            unique_keys(params@),
            assoc_map(params@) == params_upto(toks_v, i as int),
        decreases toks_v.len() - i,
    {
        let tok = &toks[i];
        assert(tok@ == toks_v[i as int]);
        let e = find_byte(tok, EQUALS);
        proof {
            lemma_find_idx(tok@, EQUALS);
        }
        let key: Vec<u8>;
        let value: Vec<u8>;
        if e < tok.len() {
            key = subv(tok, 0, e);
            value = subv(tok, e + 1, tok.len());
        } else if tok.len() >= 1 {
            let b = tok[0];
            let cl: usize = if b < 0xC0 {
                1
            } else if b < 0xE0 {
                2
            } else if b < 0xF0 {
                3
            } else if b < 0xF8 {
                4
            } else {
                1
            };
            let k = if cl <= tok.len() {
                cl
            } else {
                tok.len()
            };
            key = subv(tok, 0, k);
            value = subv(tok, k, tok.len());
        } else {
            // A token is a non-empty run of non-whitespace bytes.
            proof {
                lemma_tokens_nonempty(content@, 0);
            }
            assert(false);
            key = Vec::new();
            value = Vec::new();
        }
        assert((key@, value@) == param_entry(toks_v[i as int]));
        upsert(&mut params, key, value);
        i = i + 1;
    }
    Command { command, params }
}

/// One output chunk holding the line and its newline.
pub open spec fn line_chunk(line: Seq<u8>) -> Seq<u8> {
    line + seq![NL]
}

/// Append the line and a newline as one chunk.
pub fn push_line_chunk(out: &mut Vec<Vec<u8>>, line: &Vec<u8>)
    ensures
        final(out).deep_view() == old(out).deep_view().push(line_chunk(line@)),
{
    let ghost prev = out.deep_view();
    let mut c = copy_bytes(line);
    c.push(NL);
    out.push(c);
    proof {
        assert(out.deep_view() =~~= prev.push(line_chunk(line@)));
    }
}

/// One output chunk holding the line commented out.
pub open spec fn commented_chunk(line: Seq<u8>) -> Seq<u8> {
    "; ".spec_bytes() + line + seq![NL]
}

/// Append the line, commented out, as one chunk.
pub fn push_commented_chunk(out: &mut Vec<Vec<u8>>, line: &Vec<u8>)
    ensures
        final(out).deep_view() == old(out).deep_view().push(commented_chunk(line@)),
{
    let ghost prev = out.deep_view();
    let mut c = str_bytes("; ");
    push_all(&mut c, line);
    c.push(NL);
    out.push(c);
    proof {
        assert(out.deep_view() =~~= prev.push(commented_chunk(line@)));
    }
}

/// The start marker for one object.
pub open spec fn start_marker(name: Seq<u8>) -> Seq<u8> {
    "EXCLUDE_OBJECT_START NAME=".spec_bytes() + name + seq![NL]
}

/// The end marker for one object.
pub open spec fn end_marker(name: Seq<u8>) -> Seq<u8> {
    "EXCLUDE_OBJECT_END NAME=".spec_bytes() + name + seq![NL]
}

pub fn exclude_object_start(name: &Vec<u8>) -> (r: Vec<u8>)
    ensures
        r@ == start_marker(name@),
{
    let mut r = str_bytes("EXCLUDE_OBJECT_START NAME=");
    push_all(&mut r, name);
    r.push(NL);
    proof {
        assert(r@ =~= start_marker(name@));
    }
    r
}

pub fn exclude_object_end(name: &Vec<u8>) -> (r: Vec<u8>)
    ensures
        r@ == end_marker(name@),
{
    let mut r = str_bytes("EXCLUDE_OBJECT_END NAME=");
    push_all(&mut r, name);
    r.push(NL);
    proof {
        assert(r@ =~= end_marker(name@));
    }
    r
}

/// The definition line of one object: its name, then the center and the
/// outline where the collected points give one.
pub open spec fn define_line(name: Seq<u8>, points: Seq<(Seq<u8>, Seq<u8>)>) -> Seq<u8> {
    let base = "EXCLUDE_OBJECT_DEFINE NAME=".spec_bytes() + name;
    let with_center = if points.len() > 0 {
        base + " CENTER=".spec_bytes() + HullTracker::center_text(points)
    } else {
        base
    };
    let with_polygon = if polygon_text_of(points).len() > 0 {
        with_center + " POLYGON=".spec_bytes() + polygon_text_of(points)
    } else {
        with_center
    };
    with_polygon + seq![NL]
}

pub fn exclude_object_define(object: &KnownObject) -> (r: Vec<u8>)
    ensures
        r@ == define_line(object.name@, object.hull.model()),
{
    let mut r = str_bytes("EXCLUDE_OBJECT_DEFINE NAME=");
    push_all(&mut r, &object.name);
    match object.hull.center() {
        Option::Some(center) => {
            push_str(&mut r, " CENTER=");
            push_all(&mut r, &center);
        },
        Option::None => {
        },
    }
    let polygon = object.hull.exterior();
    if polygon.len() > 0 {
        push_str(&mut r, " POLYGON=");
        push_all(&mut r, &polygon);
    }
    r.push(NL);
    proof {
        assert(r@ =~= define_line(object.name@, object.hull.model()));
    }
    r
}

/// The definition lines of the registry, in discovery order.
pub open spec fn defines_of(objects: Seq<(Seq<u8>, ObjModel)>, i: int) -> Seq<Seq<u8>>
    decreases objects.len() - i,
{
    if i < 0 || i >= objects.len() {
        Seq::empty()
    } else {
        seq![define_line(objects[i].1.name, objects[i].1.points)] + defines_of(objects, i + 1)
    }
}

/// The banner naming the tool that rewrote the file.
pub open spec fn header_marker() -> Seq<u8> {
    "; Pre-Processed for Cancel-Object support by preprocess_cancellation v0.1.0\n".spec_bytes()
}

/// The count line of the annotation header.
pub open spec fn count_line(n: int) -> Seq<u8> {
    "; ".spec_bytes() + dec_of(n) + " known objects\n".spec_bytes()
}

/// The annotation header: a separating blank line, the banner, the count
/// of objects, and one definition line per object.
pub open spec fn header_chunks(objects: Seq<(Seq<u8>, ObjModel)>) -> Seq<Seq<u8>> {
    seq!["\n\n".spec_bytes(), header_marker(), count_line(objects.len() as int)] + defines_of(
        objects,
        0,
    )
}

/// Emit the annotation header for the registry.
pub fn exclude_object_header(registry: &Vec<(Vec<u8>, KnownObject)>) -> (r: Vec<Vec<u8>>)
    ensures
        r.deep_view() == header_chunks(reg_model(registry@)),
{
    let ghost hm = reg_model(registry@);
    let mut r: Vec<Vec<u8>> = Vec::new();
    r.push(str_bytes("\n\n"));
    r.push(str_bytes("; Pre-Processed for Cancel-Object support by preprocess_cancellation v0.1.0\n"));
    let mut count = str_bytes("; ");
    let digits = fmt_usize(registry.len());
    push_all(&mut count, &digits);
    push_str(&mut count, " known objects\n");
    assert(count@ == count_line(hm.len() as int));
    r.push(count);
    let ghost head = seq!["\n\n".spec_bytes(), header_marker(), count_line(hm.len() as int)];
    proof {
        assert(r.deep_view() =~~= head);
        assert(head + defines_of(hm, hm.len() as int) =~= head);
    }
    let mut i: usize = 0;
    while i < registry.len()
        invariant
            i <= registry@.len(),
            r.deep_view() + defines_of(hm, i as int) == head + defines_of(hm, 0),
        decreases registry@.len() - i,
    {
        let ghost prev = r.deep_view();
        let d = exclude_object_define(&registry[i].1);
        r.push(d);
        proof {
            assert(d@ == define_line(hm[i as int].1.name, hm[i as int].1.points));
            assert(r.deep_view() =~~= prev.push(d@));
            assert(defines_of(hm, i as int) == seq![define_line(
                hm[i as int].1.name,
                hm[i as int].1.points,
            )] + defines_of(hm, i + 1));
            assert(prev.push(d@) + defines_of(hm, i + 1) =~= prev + defines_of(hm, i as int));
        }
        i = i + 1;
    }
    proof {
        assert(defines_of(hm, hm.len() as int) =~= Seq::<Seq<u8>>::empty());
        assert(r.deep_view() =~= head + defines_of(hm, 0));
    }
    r
}

/// The byte shapes of the emitted chunk forms: how long each marker
/// prefix is, and the bytes that tell the chunk kinds apart.
pub proof fn lemma_marker_prefix_bytes()
    ensures
        "EXCLUDE_OBJECT_START NAME=".spec_bytes().len() == 26,
        "EXCLUDE_OBJECT_START NAME=".spec_bytes()[15] == 83,
        "EXCLUDE_OBJECT_START NAME=".spec_bytes()[0] == 69,
        "EXCLUDE_OBJECT_END NAME=".spec_bytes().len() == 24,
        "EXCLUDE_OBJECT_END NAME=".spec_bytes()[15] == 69,
        "EXCLUDE_OBJECT_END NAME=".spec_bytes()[0] == 69,
        "EXCLUDE_OBJECT_DEFINE NAME=".spec_bytes().len() == 27,
        "EXCLUDE_OBJECT_DEFINE NAME=".spec_bytes()[15] == 68,
        "EXCLUDE_OBJECT_DEFINE NAME=".spec_bytes()[0] == 69,
        "EXCLUDE_OBJECT_DEFINE NAME=".spec_bytes()[26] == 61,
        "\n\n".spec_bytes().len() == 2,
        "; ".spec_bytes().len() == 2,
        "; ".spec_bytes()[0] == 59,
        header_marker().len() > 0,
        header_marker()[0] == 59,
{
    reveal_strlit("EXCLUDE_OBJECT_START NAME=");
    reveal_strlit("EXCLUDE_OBJECT_END NAME=");
    reveal_strlit("EXCLUDE_OBJECT_DEFINE NAME=");
    reveal_strlit("\n\n");
    reveal_strlit("; ");
    reveal_strlit("; Pre-Processed for Cancel-Object support by preprocess_cancellation v0.1.0\n");
    assert(vstd::utf8::is_ascii_chars("EXCLUDE_OBJECT_START NAME="@));
    assert(vstd::utf8::is_ascii_chars("EXCLUDE_OBJECT_END NAME="@));
    assert(vstd::utf8::is_ascii_chars("EXCLUDE_OBJECT_DEFINE NAME="@));
    assert(vstd::utf8::is_ascii_chars("\n\n"@));
    assert(vstd::utf8::is_ascii_chars("; "@));
    assert(vstd::utf8::is_ascii_chars(
        "; Pre-Processed for Cancel-Object support by preprocess_cancellation v0.1.0\n"@,
    ));
    vstd::utf8::is_ascii_chars_encode_utf8("EXCLUDE_OBJECT_START NAME="@);
    vstd::utf8::is_ascii_chars_encode_utf8("EXCLUDE_OBJECT_END NAME="@);
    vstd::utf8::is_ascii_chars_encode_utf8("EXCLUDE_OBJECT_DEFINE NAME="@);
    vstd::utf8::is_ascii_chars_encode_utf8("\n\n"@);
    vstd::utf8::is_ascii_chars_encode_utf8("; "@);
    vstd::utf8::is_ascii_chars_encode_utf8(
        "; Pre-Processed for Cancel-Object support by preprocess_cancellation v0.1.0\n"@,
    );
}

/// How often a chunk occurs in a chunk sequence.
pub open spec fn count_eq(chunks: Seq<Seq<u8>>, c: Seq<u8>) -> int
    decreases chunks.len(),
{
    if chunks.len() == 0 {
        0
    } else {
        count_eq(chunks.drop_last(), c) + (if chunks.last() == c {
            1int
        } else {
            0
        })
    }
}

pub proof fn lemma_count_eq_concat(a: Seq<Seq<u8>>, b: Seq<Seq<u8>>, c: Seq<u8>)
    ensures
        count_eq(a + b, c) == count_eq(a, c) + count_eq(b, c),
    decreases b.len(),
{
    if b.len() == 0 {
        assert(a + b =~= a);
    } else {
        assert((a + b).drop_last() =~= a + b.drop_last());
        assert((a + b).last() == b.last());
        lemma_count_eq_concat(a, b.drop_last(), c);
    }
}

pub proof fn lemma_count_eq_push(a: Seq<Seq<u8>>, x: Seq<u8>, c: Seq<u8>)
    ensures
        count_eq(a.push(x), c) == count_eq(a, c) + (if x == c {
            1int
        } else {
            0
        }),
{
    assert(a.push(x).drop_last() =~= a);
    assert(a.push(x).last() == x);
}

pub proof fn lemma_count_eq_single(x: Seq<u8>, c: Seq<u8>)
    ensures
        count_eq(seq![x], c) == if x == c {
            1int
        } else {
            0
        },
{
    let s = seq![x];
    assert(s.len() == 1);
    assert(s.drop_last() =~= Seq::<Seq<u8>>::empty());
    assert(count_eq(s.drop_last(), c) == 0);
    assert(s.last() == x);
    assert(count_eq(s, c) == count_eq(s.drop_last(), c) + (if s.last() == c {
        1int
    } else {
        0
    }));
}

pub proof fn lemma_count_eq_zero(chunks: Seq<Seq<u8>>, c: Seq<u8>)
    requires
        forall|k: int| 0 <= k < chunks.len() ==> #[trigger] chunks[k] != c,
    ensures
        count_eq(chunks, c) == 0,
    decreases chunks.len(),
{
    if chunks.len() > 0 {
        let t = chunks.drop_last();
        assert(forall|k: int| 0 <= k < t.len() ==> t[k] == chunks[k]);
        lemma_count_eq_zero(t, c);
        assert(chunks.last() == chunks[chunks.len() - 1]);
    }
}

/// How many chunks begin with the prefix `p`.
pub open spec fn count_pref(chunks: Seq<Seq<u8>>, p: Seq<u8>) -> int
    decreases chunks.len(),
{
    if chunks.len() == 0 {
        0
    } else {
        count_pref(chunks.drop_last(), p) + (if crate::text::is_prefix(p, chunks.last()) {
            1int
        } else {
            0
        })
    }
}

pub proof fn lemma_count_pref_concat(a: Seq<Seq<u8>>, b: Seq<Seq<u8>>, p: Seq<u8>)
    ensures
        count_pref(a + b, p) == count_pref(a, p) + count_pref(b, p),
    decreases b.len(),
{
    if b.len() == 0 {
        assert(a + b =~= a);
    } else {
        assert((a + b).drop_last() =~= a + b.drop_last());
        assert((a + b).last() == b.last());
        lemma_count_pref_concat(a, b.drop_last(), p);
    }
}

pub proof fn lemma_count_pref_push(a: Seq<Seq<u8>>, x: Seq<u8>, p: Seq<u8>)
    ensures
        count_pref(a.push(x), p) == count_pref(a, p) + (if crate::text::is_prefix(p, x) {
            1int
        } else {
            0
        }),
{
    assert(a.push(x).drop_last() =~= a);
    assert(a.push(x).last() == x);
}

pub proof fn lemma_count_pref_zero(chunks: Seq<Seq<u8>>, p: Seq<u8>)
    requires
        forall|k: int|
            0 <= k < chunks.len() ==> !crate::text::is_prefix(p, #[trigger] chunks[k]),
    ensures
        count_pref(chunks, p) == 0,
    decreases chunks.len(),
{
    if chunks.len() > 0 {
        let t = chunks.drop_last();
        assert(forall|k: int| 0 <= k < t.len() ==> t[k] == chunks[k]);
        lemma_count_pref_zero(t, p);
        assert(chunks.last() == chunks[chunks.len() - 1]);
    }
}

/// A definition line begins with the definition word.
pub proof fn lemma_define_line_prefixed(name: Seq<u8>, points: Seq<(Seq<u8>, Seq<u8>)>)
    ensures
        crate::text::is_prefix(
            "EXCLUDE_OBJECT_DEFINE NAME=".spec_bytes(),
            define_line(name, points),
        ),
{
    let p = "EXCLUDE_OBJECT_DEFINE NAME=".spec_bytes();
    let d = define_line(name, points);
    assert(d.len() >= p.len() + 1);
    assert(forall|k: int| 0 <= k < p.len() ==> d[k] == p[k]);
    assert(d.subrange(0, p.len() as int) =~= p);
}

/// The annotation header holds exactly one definition line per registry
/// entry, and nothing else in it begins with the definition word.
pub proof fn lemma_header_defines_count(objects: Seq<(Seq<u8>, ObjModel)>)
    ensures
        count_pref(header_chunks(objects), "EXCLUDE_OBJECT_DEFINE NAME=".spec_bytes())
            == objects.len(),
{
    lemma_marker_prefix_bytes();
    let p = "EXCLUDE_OBJECT_DEFINE NAME=".spec_bytes();
    let head = seq!["\n\n".spec_bytes(), header_marker(), count_line(objects.len() as int)];
    assert(!crate::text::is_prefix(p, "\n\n".spec_bytes()));
    assert(!crate::text::is_prefix(p, header_marker())) by {
        if crate::text::is_prefix(p, header_marker()) {
            assert(header_marker().subrange(0, p.len() as int)[0] == p[0]);
        }
    }
    assert(!crate::text::is_prefix(p, count_line(objects.len() as int))) by {
        let c = count_line(objects.len() as int);
        if crate::text::is_prefix(p, c) {
            assert(c[0] == "; ".spec_bytes()[0]);
            assert(c.subrange(0, p.len() as int)[0] == p[0]);
        }
    }
    assert forall|k: int| 0 <= k < head.len() implies !crate::text::is_prefix(
        p,
        #[trigger] head[k],
    ) by {}
    lemma_count_pref_zero(head, p);
    lemma_defines_index(objects, 0);
    lemma_count_pref_all_defines(objects, 0);
    lemma_count_pref_concat(head, defines_of(objects, 0), p);
}

/// Every chunk of the definition run is a definition line.
proof fn lemma_count_pref_all_defines(objects: Seq<(Seq<u8>, ObjModel)>, i: int)
    requires
        0 <= i <= objects.len(),
    ensures
        count_pref(defines_of(objects, i), "EXCLUDE_OBJECT_DEFINE NAME=".spec_bytes())
            == objects.len() - i,
    decreases objects.len() - i,
{
    let p = "EXCLUDE_OBJECT_DEFINE NAME=".spec_bytes();
    if i < objects.len() {
        lemma_count_pref_all_defines(objects, i + 1);
        lemma_define_line_prefixed(objects[i].1.name, objects[i].1.points);
        lemma_count_pref_concat(
            seq![define_line(objects[i].1.name, objects[i].1.points)],
            defines_of(objects, i + 1),
            p,
        );
        let s = seq![define_line(objects[i].1.name, objects[i].1.points)];
        assert(s.drop_last() =~= Seq::<Seq<u8>>::empty());
        assert(count_pref(s.drop_last(), p) == 0);
        assert(s.last() == define_line(objects[i].1.name, objects[i].1.points));
        assert(count_pref(s, p) == 1);
    }
}

/// A copied line carries no definition word, unless the line itself began
/// with one.
pub proof fn lemma_line_chunk_no_define(line: Seq<u8>)
    requires
        !crate::text::is_prefix("EXCLUDE_OBJECT_DEFINE NAME=".spec_bytes(), line),
    ensures
        !crate::text::is_prefix("EXCLUDE_OBJECT_DEFINE NAME=".spec_bytes(), line_chunk(line)),
        !crate::text::is_prefix("EXCLUDE_OBJECT_DEFINE NAME=".spec_bytes(), commented_chunk(line)),
{
    lemma_marker_prefix_bytes();
    let p = "EXCLUDE_OBJECT_DEFINE NAME=".spec_bytes();
    if crate::text::is_prefix(p, line_chunk(line)) {
        if line.len() >= p.len() {
            assert forall|k: int| 0 <= k < p.len() implies line[k] == p[k] by {
                assert(line_chunk(line).subrange(0, p.len() as int)[k] == p[k]);
            }
            assert(line.subrange(0, p.len() as int) =~= p);
        } else {
            assert(line.len() == p.len() - 1);
            assert(line_chunk(line).subrange(0, p.len() as int)[p.len() - 1] == p[p.len() - 1]);
            assert(line_chunk(line)[p.len() - 1] == crate::text::NL);
        }
    }
    if crate::text::is_prefix(p, commented_chunk(line)) {
        assert(commented_chunk(line).subrange(0, p.len() as int)[0] == p[0]);
        assert(commented_chunk(line)[0] == "; ".spec_bytes()[0]);
    }
}

/// Neither marker begins with the definition word.
pub proof fn lemma_markers_no_define(n: Seq<u8>)
    ensures
        !crate::text::is_prefix("EXCLUDE_OBJECT_DEFINE NAME=".spec_bytes(), start_marker(n)),
        !crate::text::is_prefix("EXCLUDE_OBJECT_DEFINE NAME=".spec_bytes(), end_marker(n)),
{
    lemma_marker_prefix_bytes();
    let p = "EXCLUDE_OBJECT_DEFINE NAME=".spec_bytes();
    if crate::text::is_prefix(p, start_marker(n)) {
        assert(start_marker(n).subrange(0, p.len() as int)[15] == p[15]);
        assert(start_marker(n)[15] == 83);
    }
    if crate::text::is_prefix(p, end_marker(n)) {
        assert(end_marker(n).subrange(0, p.len() as int)[15] == p[15]);
        assert(end_marker(n)[15] == 69);
    }
}

/// Appending a marker never adds a definition chunk.
pub proof fn lemma_push_marker_keeps_defines(a: Seq<Seq<u8>>, name: Seq<u8>)
    ensures
        count_pref(a.push(start_marker(name)), "EXCLUDE_OBJECT_DEFINE NAME=".spec_bytes())
            == count_pref(a, "EXCLUDE_OBJECT_DEFINE NAME=".spec_bytes()),
        count_pref(a.push(end_marker(name)), "EXCLUDE_OBJECT_DEFINE NAME=".spec_bytes())
            == count_pref(a, "EXCLUDE_OBJECT_DEFINE NAME=".spec_bytes()),
{
    let p = "EXCLUDE_OBJECT_DEFINE NAME=".spec_bytes();
    lemma_markers_no_define(name);
    lemma_count_pref_push(a, start_marker(name), p);
    lemma_count_pref_push(a, end_marker(name), p);
}

/// The chunk of a line that carries no definition word counts for
/// nothing, copied plain or commented out.
pub proof fn lemma_line_chunks_count_free(line: Seq<u8>)
    requires
        !crate::text::is_prefix("EXCLUDE_OBJECT_DEFINE NAME=".spec_bytes(), line),
    ensures
        count_pref(seq![line_chunk(line)], "EXCLUDE_OBJECT_DEFINE NAME=".spec_bytes()) == 0,
        count_pref(seq![commented_chunk(line)], "EXCLUDE_OBJECT_DEFINE NAME=".spec_bytes()) == 0,
{
    let p = "EXCLUDE_OBJECT_DEFINE NAME=".spec_bytes();
    lemma_line_chunk_no_define(line);
    let a = seq![line_chunk(line)];
    assert(a.drop_last() =~= Seq::<Seq<u8>>::empty());
    assert(count_pref(a.drop_last(), p) == 0);
    assert(a.last() == line_chunk(line));
    let b = seq![commented_chunk(line)];
    assert(b.drop_last() =~= Seq::<Seq<u8>>::empty());
    assert(count_pref(b.drop_last(), p) == 0);
    assert(b.last() == commented_chunk(line));
}

/// A commented-out line is no marker: it begins with the comment word.
pub proof fn lemma_commented_chunk_not_marker(line: Seq<u8>, n: Seq<u8>)
    ensures
        commented_chunk(line) != start_marker(n),
        commented_chunk(line) != end_marker(n),
{
    lemma_marker_prefix_bytes();
    assert(commented_chunk(line)[0] == "; ".spec_bytes()[0]);
    assert(start_marker(n)[0] == 69);
    assert(end_marker(n)[0] == 69);
}

/// A start marker names exactly one object.
pub proof fn lemma_start_marker_eq(a: Seq<u8>, b: Seq<u8>)
    ensures
        (start_marker(a) == start_marker(b)) <==> (a == b),
{
    let p = "EXCLUDE_OBJECT_START NAME=".spec_bytes();
    assert(start_marker(a).len() == p.len() + a.len() + 1);
    assert(start_marker(b).len() == p.len() + b.len() + 1);
    if start_marker(a) == start_marker(b) {
        assert(a.len() == b.len());
        assert forall|i: int| 0 <= i < a.len() implies a[i] == b[i] by {
            assert(start_marker(a)[p.len() + i] == a[i]);
            assert(start_marker(b)[p.len() + i] == b[i]);
        }
        assert(a =~= b);
    }
}

/// An end marker names exactly one object.
pub proof fn lemma_end_marker_eq(a: Seq<u8>, b: Seq<u8>)
    ensures
        (end_marker(a) == end_marker(b)) <==> (a == b),
{
    let p = "EXCLUDE_OBJECT_END NAME=".spec_bytes();
    assert(end_marker(a).len() == p.len() + a.len() + 1);
    assert(end_marker(b).len() == p.len() + b.len() + 1);
    if end_marker(a) == end_marker(b) {
        assert(a.len() == b.len());
        assert forall|i: int| 0 <= i < a.len() implies a[i] == b[i] by {
            assert(end_marker(a)[p.len() + i] == a[i]);
            assert(end_marker(b)[p.len() + i] == b[i]);
        }
        assert(a =~= b);
    }
}

/// No start marker is an end marker: the words differ.
pub proof fn lemma_start_end_markers_differ(a: Seq<u8>, b: Seq<u8>)
    ensures
        start_marker(a) != end_marker(b),
{
    lemma_marker_prefix_bytes();
    assert(start_marker(a)[15] == 83);
    assert(end_marker(b)[15] == 69);
}

/// Which lines the balance law excludes: a file that itself holds marker
/// lines would add to the counts the emission produces.
pub open spec fn no_marker_lines(lines: Seq<Seq<u8>>) -> bool {
    forall|k: int|
        0 <= k < lines.len() ==> !crate::text::is_prefix(
            "EXCLUDE_OBJECT_START NAME=".spec_bytes(),
            #[trigger] lines[k],
        ) && !crate::text::is_prefix("EXCLUDE_OBJECT_END NAME=".spec_bytes(), lines[k])
}

/// A copied line is no marker, unless the line itself began as one.
pub proof fn lemma_line_chunk_not_marker(line: Seq<u8>, n: Seq<u8>)
    requires
        !crate::text::is_prefix("EXCLUDE_OBJECT_START NAME=".spec_bytes(), line),
        !crate::text::is_prefix("EXCLUDE_OBJECT_END NAME=".spec_bytes(), line),
    ensures
        line_chunk(line) != start_marker(n),
        line_chunk(line) != end_marker(n),
{
    let sp = "EXCLUDE_OBJECT_START NAME=".spec_bytes();
    let ep = "EXCLUDE_OBJECT_END NAME=".spec_bytes();
    if line_chunk(line) == start_marker(n) {
        assert(line_chunk(line).len() == line.len() + 1);
        assert(start_marker(n).len() == sp.len() + n.len() + 1);
        assert(line.len() == sp.len() + n.len());
        assert(line =~= (line + seq![NL]).subrange(0, line.len() as int));
        assert(line.subrange(0, sp.len() as int) =~= sp);
    }
    if line_chunk(line) == end_marker(n) {
        assert(line_chunk(line).len() == line.len() + 1);
        assert(end_marker(n).len() == ep.len() + n.len() + 1);
        assert(line.len() == ep.len() + n.len());
        assert(line =~= (line + seq![NL]).subrange(0, line.len() as int));
        assert(line.subrange(0, ep.len() as int) =~= ep);
    }
}

/// No chunk of the annotation header is a start or end marker.
pub proof fn lemma_header_free_of_markers(objects: Seq<(Seq<u8>, ObjModel)>, n: Seq<u8>)
    ensures
        forall|k: int|
            0 <= k < header_chunks(objects).len() ==> #[trigger] header_chunks(objects)[k]
                != start_marker(n) && header_chunks(objects)[k] != end_marker(n),
{
    lemma_marker_prefix_bytes();
    let h = header_chunks(objects);
    lemma_defines_index(objects, 0);
    assert forall|k: int|
        0 <= k < h.len() implies #[trigger] h[k] != start_marker(n) && h[k] != end_marker(n) by {
        assert(start_marker(n)[0] == 69);
        assert(end_marker(n)[0] == 69);
        assert(start_marker(n).len() > 26);
        assert(end_marker(n).len() > 24);
        if k == 0 {
            assert(h[k] == "\n\n".spec_bytes());
        } else if k == 1 {
            assert(h[k] == header_marker());
            assert(h[k][0] == 59);
        } else if k == 2 {
            assert(h[k] == count_line(objects.len() as int));
            assert(h[k][0] == "; ".spec_bytes()[0]);
        } else {
            assert(h[k] == defines_of(objects, 0)[k - 3]);
            assert(h[k] == define_line(objects[k - 3].1.name, objects[k - 3].1.points));
            assert(h[k][15] == "EXCLUDE_OBJECT_DEFINE NAME=".spec_bytes()[15]);
            assert(start_marker(n)[15] == 83);
            assert(end_marker(n)[15] == 69);
        }
    }
}

/// The definition chunks, indexed.
pub proof fn lemma_defines_index(objects: Seq<(Seq<u8>, ObjModel)>, i: int)
    requires
        0 <= i <= objects.len(),
    ensures
        defines_of(objects, i).len() == objects.len() - i,
        forall|k: int|
            0 <= k < objects.len() - i ==> #[trigger] defines_of(objects, i)[k] == define_line(
                objects[i + k].1.name,
                objects[i + k].1.points,
            ),
    decreases objects.len() - i,
{
    if i < objects.len() {
        lemma_defines_index(objects, i + 1);
        assert forall|k: int|
            0 <= k < objects.len() - i implies #[trigger] defines_of(objects, i)[k] == define_line(
            objects[i + k].1.name,
            objects[i + k].1.points,
        ) by {
            if k > 0 {
                assert(defines_of(objects, i)[k] == defines_of(objects, i + 1)[k - 1]);
            }
        }
    }
}

/// Every token that tokenisation yields is non-empty.
pub proof fn lemma_tokens_nonempty(s: Seq<u8>, i: int)
    requires
        0 <= i <= s.len(),
    ensures
        forall|k: int|
            0 <= k < tokens_from(s, i).len() ==> (#[trigger] tokens_from(s, i)[k]).len() > 0,
    decreases s.len() - i,
{
    if i < s.len() {
        if is_ws(s[i]) {
            lemma_tokens_nonempty(s, i + 1);
            assert forall|k: int| 0 <= k < tokens_from(s, i).len() implies (#[trigger] tokens_from(
                s,
                i,
            )[k]).len() > 0 by {
                assert(tokens_from(s, i)[k] == tokens_from(s, i + 1)[k]);
                assert(tokens_from(s, i + 1)[k].len() > 0);
            }
        } else {
            lemma_token_end(s, i);
            assert(token_end(s, i) == token_end(s, i + 1));
            lemma_token_end(s, i + 1);
            assert(token_end(s, i) > i);
            lemma_tokens_nonempty(s, token_end(s, i));
            let e = token_end(s, i);
            assert forall|k: int| 0 <= k < tokens_from(s, i).len() implies (#[trigger] tokens_from(
                s,
                i,
            )[k]).len() > 0 by {
                if k == 0 {
                    assert(tokens_from(s, i)[0] == s.subrange(i, e));
                } else {
                    assert(tokens_from(s, i)[k] == tokens_from(s, e)[k - 1]);
                    assert(tokens_from(s, e)[k - 1].len() > 0);
                }
            }
        }
    }
}

} // verus!
