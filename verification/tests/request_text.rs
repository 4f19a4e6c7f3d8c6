use potsweep::request::{assemble_request, output_file_name};

fn text(v: Vec<u8>) -> String {
    String::from_utf8(v).unwrap()
}

#[test]
fn request_holds_header_blocks_and_trailer() {
    let nn = b"O core 0.0 0.0 0.0\n";
    let n2 = b"O shel 1.0 1.0 1.0\n";
    let lines = vec![b"O   0.10000   0.20000   0.30000".to_vec()];
    let req = text(assemble_request(nn, n2, &lines));
    assert_eq!(
        req,
        "conp opti\n\
         cart region 1\n\
         O core 0.0 0.0 0.0\n\
         cart region 2 rigid\n\
         O shel 1.0 1.0 1.0\n\
         O   0.10000   0.20000   0.30000\n\
         library streitzmintmire\n\n"
    );
}

#[test]
fn request_repeats_fragments_per_point() {
    let nn = b"A\n";
    let n2 = b"B\n";
    let lines = vec![b"L1".to_vec(), b"L2".to_vec()];
    let req = text(assemble_request(nn, n2, &lines));
    assert_eq!(
        req,
        "conp opti\n\
         cart region 1\nA\ncart region 2 rigid\nB\nL1\nlibrary streitzmintmire\n\n\
         cart region 1\nA\ncart region 2 rigid\nB\nL2\nlibrary streitzmintmire\n\n"
    );
}

#[test]
fn empty_row_gives_bare_header() {
    let req = text(assemble_request(b"A", b"B", &Vec::new()));
    assert_eq!(req, "conp opti\n");
}

#[test]
fn assembly_is_idempotent() {
    // Identical fragments and coordinate lines give byte-identical requests,
    // however often the request is rebuilt.
    let nn = b"O core 0.0 0.0 0.0\n";
    let n2 = b"O shel 1.0 1.0 1.0\n";
    let lines = vec![b"O   1.00000   2.00000   3.00000".to_vec()];
    let first = assemble_request(nn, n2, &lines);
    let second = assemble_request(nn, n2, &lines);
    assert_eq!(first, second);
}

#[test]
fn output_name_for_plain_node() {
    assert_eq!(text(output_file_name(1, None)), "potential_1.dat");
    assert_eq!(text(output_file_name(12, None)), "potential_12.dat");
}

#[test]
fn output_name_for_chunked_node() {
    assert_eq!(text(output_file_name(1, Some(3))), "potential_1.c3.dat");
    assert_eq!(text(output_file_name(30, Some(48))), "potential_30.c48.dat");
}
