use preprocess_cancellation::layers::LayerFilter;
use preprocess_cancellation::preprocess::{process, PreprocessError};

fn run(input: &str, layers: &str) -> String {
    let filter = LayerFilter::try_from(&layers.as_bytes().to_vec()).unwrap();
    let chunks = process(&input.as_bytes().to_vec(), &filter).unwrap();
    String::from_utf8(chunks.concat()).unwrap()
}

fn count(haystack: &str, needle: &str) -> usize {
    haystack.matches(needle).count()
}

fn bbox_of_polygon(output: &str, name: &str) -> (f64, f64) {
    let line = output
        .lines()
        .find(|l| l.starts_with(&format!("EXCLUDE_OBJECT_DEFINE NAME={name}")))
        .unwrap();
    let json = line.split("POLYGON=").nth(1).unwrap();
    let points: Vec<(f64, f64)> = serde_json::from_str(json).unwrap();
    let xmin = points.iter().map(|p| p.0).fold(f64::INFINITY, f64::min);
    let xmax = points.iter().map(|p| p.0).fold(f64::NEG_INFINITY, f64::max);
    let ymin = points.iter().map(|p| p.1).fold(f64::INFINITY, f64::min);
    let ymax = points.iter().map(|p| p.1).fold(f64::NEG_INFINITY, f64::max);
    (xmax - xmin, ymax - ymin)
}

#[test]
fn test_annotated_file_passes_through_unchanged() {
    let input = "EXCLUDE_OBJECT_DEFINE NAME=x\nG1 X0 Y0 E1\n";
    let filter = LayerFilter::try_from(&b"*".to_vec()).unwrap();
    let chunks = process(&input.as_bytes().to_vec(), &filter).unwrap();
    assert_eq!(chunks.len(), 1);
    assert_eq!(chunks[0], input.as_bytes().to_vec());
}

#[test]
fn test_define_object_marker_also_passes_through() {
    let input = "; generated by PrusaSlicer\nG1 X0 Y0\nDEFINE_OBJECT NAME=x\n";
    let filter = LayerFilter::try_from(&b"*".to_vec()).unwrap();
    let chunks = process(&input.as_bytes().to_vec(), &filter).unwrap();
    assert_eq!(chunks.concat(), input.as_bytes().to_vec());
}

#[test]
fn test_unknown_slicer_is_refused() {
    let input = "; some other tool\nG1 X0 Y0\n";
    let filter = LayerFilter::try_from(&b"*".to_vec()).unwrap();
    match process(&input.as_bytes().to_vec(), &filter) {
        Err(e) => assert!(matches!(e, PreprocessError::UnknownSlicer)),
        Ok(_) => panic!("a file with no signature must be refused"),
    }
}

#[test]
fn test_slic3r_annotation() {
    let input = "; generated by PrusaSlicer 2.5.0\n\
G28\n\
; printing object cube.stl id:0 copy 0\n\
G1 X1 Y1 E1\n\
G1 X3 Y3 E1\n\
; stop printing object cube.stl id:0 copy 0\n\
; printing object cube.stl id:0 copy 0\n\
G1 X10 Y10 E1\n\
; stop printing object cube.stl id:0 copy 0\n";
    let output = run(input, "*");
    assert_eq!(count(&output, "EXCLUDE_OBJECT_DEFINE NAME=cube_stl_id_0_copy_0"), 1);
    assert_eq!(count(&output, "EXCLUDE_OBJECT_START NAME=cube_stl_id_0_copy_0\n"), 2);
    assert_eq!(count(&output, "EXCLUDE_OBJECT_END NAME=cube_stl_id_0_copy_0\n"), 2);
    assert!(output.contains("; 1 known objects\n"));
    // The header goes right before the first real command.
    let g28 = output.find("G28").unwrap();
    let header = output.find("EXCLUDE_OBJECT_DEFINE").unwrap();
    assert!(header < g28);
    assert!(output.contains("CENTER=5.500,5.500"));
}

#[test]
fn test_slic3r_layer_restriction_shrinks_hull() {
    let input = "; generated by SuperSlicer\n\
G28\n\
; printing object part id:0 copy 0\n\
G1 X1 Y1 E1\n\
G1 X3 Y3 E1\n\
; stop printing object part id:0 copy 0\n\
; printing object part id:0 copy 0\n\
G1 X10 Y10 E1\n\
; stop printing object part id:0 copy 0\n";
    let all = bbox_of_polygon(&run(input, "*"), "part_id_0_copy_0");
    let first = bbox_of_polygon(&run(input, "0"), "part_id_0_copy_0");
    assert!(first.0 <= all.0);
    assert!(first.1 <= all.1);
    assert_eq!(first, (2.0, 2.0));
    assert_eq!(all, (9.0, 9.0));
}

#[test]
fn test_cura_annotation() {
    let input = ";Generated with Cura_SteamEngine 5.0\n\
;MESH:NONMESH\n\
G0 X0 Y0\n\
;MESH:box.stl\n\
G1 X1 Y1 E1\n\
G1 X2 Y2 E1\n\
;MESH:NONMESH\n\
G0 X5 Y5\n\
;TIME_ELAPSED:100\n";
    let output = run(input, "*");
    assert_eq!(count(&output, "EXCLUDE_OBJECT_DEFINE NAME=box_stl"), 1);
    assert_eq!(count(&output, "EXCLUDE_OBJECT_START NAME=box_stl\n"), 1);
    assert_eq!(count(&output, "EXCLUDE_OBJECT_END NAME=box_stl\n"), 1);
    assert!(output.contains("CENTER=1.500,1.500"));
    // Travel moves without extrusion contribute no points.
    assert!(!output.contains("5.000"));
    // The NONMESH marker never becomes an object.
    assert!(!output.contains("NAME=NONMESH"));
}

#[test]
fn test_cura_time_elapsed_closes_final_object() {
    let input = ";Generated with Cura_SteamEngine 5.0\n\
G0 X0 Y0\n\
;MESH:only.stl\n\
G1 X1 Y1 E1\n\
;TIME_ELAPSED:55\n";
    let output = run(input, "*");
    assert_eq!(count(&output, "EXCLUDE_OBJECT_START NAME=only_stl\n"), 1);
    assert_eq!(count(&output, "EXCLUDE_OBJECT_END NAME=only_stl\n"), 1);
    let end = output.find("EXCLUDE_OBJECT_END NAME=only_stl").unwrap();
    let elapsed = output.find(";TIME_ELAPSED:55").unwrap();
    assert!(elapsed < end);
}

#[test]
fn test_ideamaker_annotation() {
    let input = ";Sliced by ideaMaker\n\
G28\n\
;PRINTING: part one\n\
;PRINTING_ID: 0\n\
G1 X1 Y1 E1\n\
;PRINTING: part two\n\
;PRINTING_ID: 1\n\
G1 X5 Y5 E1\n\
;PRINTING_ID: -1\n";
    let output = run(input, "*");
    assert_eq!(count(&output, "EXCLUDE_OBJECT_DEFINE NAME=part_one"), 1);
    assert_eq!(count(&output, "EXCLUDE_OBJECT_DEFINE NAME=part_two"), 1);
    assert_eq!(count(&output, "EXCLUDE_OBJECT_START NAME=part_one\n"), 1);
    assert_eq!(count(&output, "EXCLUDE_OBJECT_END NAME=part_one\n"), 1);
    assert_eq!(count(&output, "EXCLUDE_OBJECT_START NAME=part_two\n"), 1);
    assert_eq!(count(&output, "EXCLUDE_OBJECT_END NAME=part_two\n"), 1);
    assert!(output.contains("; 2 known objects\n"));
}

#[test]
fn test_m486_annotation() {
    let input = "M486 T2\n\
;setup\n\
G28\n\
M486 S0\n\
G1 X10 Y10 E1\n\
M486 S1\n\
G1 X20 Y20 E1\n\
M486 S-1\n";
    let output = run(input, "*");
    assert_eq!(count(&output, "EXCLUDE_OBJECT_DEFINE NAME=0"), 1);
    assert_eq!(count(&output, "EXCLUDE_OBJECT_DEFINE NAME=1"), 1);
    assert!(!output.contains("EXCLUDE_OBJECT_DEFINE NAME=-1"));
    assert!(output.contains("; 2 known objects\n"));
    assert_eq!(count(&output, "EXCLUDE_OBJECT_START NAME=0\n"), 1);
    assert_eq!(count(&output, "EXCLUDE_OBJECT_END NAME=0\n"), 1);
    assert_eq!(count(&output, "EXCLUDE_OBJECT_START NAME=1\n"), 1);
    assert_eq!(count(&output, "EXCLUDE_OBJECT_END NAME=1\n"), 1);
    // The switching commands survive, commented out.
    assert!(output.contains("; M486 S0\n"));
    assert!(output.contains("; M486 S1\n"));
    assert!(output.contains("; M486 S-1\n"));
}

#[test]
fn test_slic3r_closes_open_object_at_end_of_stream() {
    let input = "; generated by PrusaSlicer\n\
G28\n\
; printing object a\n\
G1 X1 Y1 E1\n";
    let output = run(input, "*");
    assert_eq!(count(&output, "EXCLUDE_OBJECT_START NAME=a\n"), 1);
    assert_eq!(count(&output, "EXCLUDE_OBJECT_END NAME=a\n"), 1);
    // The close comes last: nothing followed the open object.
    assert!(output.ends_with("EXCLUDE_OBJECT_END NAME=a\n"));
}

#[test]
fn test_slic3r_closes_before_reopening() {
    let input = "; generated by SuperSlicer\n\
G28\n\
; printing object a\n\
G1 X1 Y1 E1\n\
; printing object b\n\
G1 X2 Y2 E1\n\
; stop printing object b\n";
    let output = run(input, "*");
    assert_eq!(count(&output, "EXCLUDE_OBJECT_START NAME=a\n"), 1);
    assert_eq!(count(&output, "EXCLUDE_OBJECT_END NAME=a\n"), 1);
    assert_eq!(count(&output, "EXCLUDE_OBJECT_START NAME=b\n"), 1);
    assert_eq!(count(&output, "EXCLUDE_OBJECT_END NAME=b\n"), 1);
    let end_a = output.find("EXCLUDE_OBJECT_END NAME=a\n").unwrap();
    let start_b = output.find("EXCLUDE_OBJECT_START NAME=b\n").unwrap();
    assert!(end_a < start_b);
}

#[test]
fn test_m486_closes_open_object_at_end_of_stream() {
    let input = "M486 T1\n\
;setup\n\
G28\n\
M486 S0\n\
G1 X1 Y1 E1\n";
    let output = run(input, "*");
    assert_eq!(count(&output, "EXCLUDE_OBJECT_START NAME=0\n"), 1);
    assert_eq!(count(&output, "EXCLUDE_OBJECT_END NAME=0\n"), 1);
    assert!(output.ends_with("EXCLUDE_OBJECT_END NAME=0\n"));
}

#[test]
fn test_non_finite_coordinates_do_not_abort() {
    // `nan`, `inf` and absurdly large values all parse as doubles, so the
    // points are collected; deriving the outline must still not abort.
    let input = "; generated by PrusaSlicer\n\
G28\n\
; printing object a\n\
G1 Xnan Y0 E1\n\
G1 Xinf Y-inf E1\n\
G1 X1e200 Y1e200 E1\n\
G1 X1 Y1 E1\n\
G1 X2 Y2 E1\n\
; stop printing object a\n";
    let output = run(input, "*");
    assert_eq!(count(&output, "EXCLUDE_OBJECT_DEFINE NAME=a"), 1);
    assert_eq!(count(&output, "EXCLUDE_OBJECT_START NAME=a\n"), 1);
    assert_eq!(count(&output, "EXCLUDE_OBJECT_END NAME=a\n"), 1);
    let define = output
        .lines()
        .find(|l| l.starts_with("EXCLUDE_OBJECT_DEFINE NAME=a"))
        .unwrap();
    assert!(define.contains("POLYGON"));
}

#[test]
fn test_bad_coordinates_collect_no_point() {
    let input = "; generated by PrusaSlicer\n\
G28\n\
; printing object part id:0 copy 0\n\
G1 Xoops Y1 E1\n\
G1 X1 Yoops E1\n\
G1 X1 Y1 Eoops\n\
; stop printing object part id:0 copy 0\n";
    let output = run(input, "*");
    let define = output
        .lines()
        .find(|l| l.starts_with("EXCLUDE_OBJECT_DEFINE NAME=part_id_0_copy_0"))
        .unwrap();
    assert!(!define.contains("CENTER"));
    assert!(!define.contains("POLYGON"));
}
