//! The per-file driver: detect what produced the file, or that it is
//! already annotated, and hand it to the right processor.

use vstd::prelude::*;

verus! {

use vstd::string::StringSliceAdditionalSpecFns;
use crate::layers::LayerFilter;
use crate::slicers::{PreProcessorImpl, identify_slicer_marker, spec_identify};
use crate::text::{NL, copy_bytes, find_idx, is_prefix, lines_of, split_lines, starts_with};

/// What can go wrong around one file. The variants that speak of streams,
/// directories and temporary files belong to the I/O shell around the
/// library; the core itself only ever reports `UnknownSlicer` or
/// `InvalidLayerFilter`.
#[derive(Debug)]
pub enum PreprocessError {
    IoError(String),
    RewindError,
    ReadError,
    WriteError,
    InvalidLayerFilter,
    CreateOutputDirectory,
    TempFile,
    FlushTempFile,
    UnknownSlicer,
    Other,
}

/// Whether some line already carries a cancellation definition: such a
/// file passes through untouched.
pub open spec fn already_annotated(lines: Seq<Seq<u8>>) -> bool {
    exists|i: int|
        0 <= i < lines.len() && (is_prefix("EXCLUDE_OBJECT_DEFINE".spec_bytes(), #[trigger] lines[i])
            || is_prefix("DEFINE_OBJECT".spec_bytes(), lines[i]))
}

/// Index of the first line a slicer signature matches, or the line count.
pub open spec fn first_detect(lines: Seq<Seq<u8>>, i: int) -> int
    decreases lines.len() - i,
{
    if i < 0 || i >= lines.len() {
        lines.len() as int
    } else if spec_identify(lines[i]) is Some {
        i
    } else {
        first_detect(lines, i + 1)
    }
}

pub proof fn lemma_first_detect(lines: Seq<Seq<u8>>, i: int)
    requires
        0 <= i <= lines.len(),
    ensures
        i <= first_detect(lines, i) <= lines.len(),
        forall|k: int| i <= k < first_detect(lines, i) ==> spec_identify(#[trigger] lines[k]) is None,
        first_detect(lines, i) < lines.len() ==> spec_identify(lines[first_detect(lines, i)])
            is Some,
    decreases lines.len() - i,
{
    if i < lines.len() && !(spec_identify(lines[i]) is Some) {
        lemma_first_detect(lines, i + 1);
    }
}

/// What the detected processor emits for the file's lines.
pub open spec fn detected_output(lines: Seq<Seq<u8>>, f: LayerFilter) -> Seq<Seq<u8>> {
    match spec_identify(lines[first_detect(lines, 0)]) {
        Option::Some(p) => p.output_of(lines, f),
        Option::None => Seq::empty(),
    }
}

/// A byte stream has no more lines than bytes.
pub proof fn lemma_lines_of_len(s: Seq<u8>)
    ensures
        lines_of(s).len() <= s.len(),
    decreases s.len(),
{
    if s.len() > 0 {
        let i = find_idx(s, NL);
        crate::text::lemma_find_idx(s, NL);
        if 0 <= i < s.len() {
            lemma_lines_of_len(s.subrange(i + 1, s.len() as int));
        }
    }
}

/// Rewrite one file's content: copy it through byte-for-byte when it is
/// already annotated, otherwise detect the slicer and run its processor;
/// a file no signature matches is refused.
pub fn process(input: &Vec<u8>, layer_filter: &LayerFilter) -> (r: Result<
    Vec<Vec<u8>>,
    PreprocessError,
>)
    requires
        layer_filter.wf(),
        input@.len() <= isize::MAX,
    ensures
        ({
            let lines = lines_of(input@);
            match r {
                Result::Ok(chunks) => {
                    &&& (already_annotated(lines) ==> chunks.deep_view() == seq![input@])
                    &&& (!already_annotated(lines) ==> first_detect(lines, 0) < lines.len()
                        && chunks.deep_view() == detected_output(lines, *layer_filter))
                },
                Result::Err(e) => {
                    &&& e is UnknownSlicer
                    &&& !already_annotated(lines)
                    &&& first_detect(lines, 0) == lines.len()
                },
            }
        }),
{
    let ghost lv = lines_of(input@);
    proof {
        lemma_lines_of_len(input@);
        lemma_first_detect(lv, 0);
    }
    let lines = split_lines(input);
    let mut processor: Option<PreProcessorImpl> = Option::None;
    let mut i: usize = 0;
    while i < lines.len()
        invariant
            i <= lv.len() == lines@.len(),
            lines.deep_view() == lv,
            forall|k: int|
                0 <= k < i ==> !(is_prefix("EXCLUDE_OBJECT_DEFINE".spec_bytes(), #[trigger] lv[k])
                    || is_prefix("DEFINE_OBJECT".spec_bytes(), lv[k])),
            processor is Some ==> first_detect(lv, 0) < i && processor == spec_identify(
                lv[first_detect(lv, 0)],
            ),
            processor is None ==> first_detect(lv, 0) >= i,
        decreases lv.len() - i,
    {
        let line = &lines[i];
        assert(line@ == lv[i as int]);
        if starts_with(line, "EXCLUDE_OBJECT_DEFINE") || starts_with(line, "DEFINE_OBJECT") {
            assert(already_annotated(lv));
            let mut chunks: Vec<Vec<u8>> = Vec::new();
            chunks.push(copy_bytes(input));
            proof {
                assert(chunks.deep_view() =~~= seq![input@]);
            }
            return Result::Ok(chunks);
        }
        if processor.is_none() {
            processor = identify_slicer_marker(line);
            proof {
                if processor is Some {
                    assert(i as int == first_detect(lv, 0)) by {
                        if (i as int) > first_detect(lv, 0) {
                            assert(spec_identify(lv[first_detect(lv, 0)]) is None);
                        }
                    }
                }
            }
        }
        i = i + 1;
    }
    proof {
        assert(!already_annotated(lv));
    }
    match processor {
        Option::None => {
            proof {
                assert(first_detect(lv, 0) == lv.len());
            }
            Result::Err(PreprocessError::UnknownSlicer)
        },
        Option::Some(p) => {
            let chunks = p.process(&lines, layer_filter);
            Result::Ok(chunks)
        },
    }
}

} // verus!
