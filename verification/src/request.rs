//! Assembling the textual job request sent to the engine for one row.
//!
//! A request is a fixed job-control header, then one block per grid point:
//! the first cluster fragment under a `cart region 1` directive, the second
//! fragment under `cart region 2 rigid`, the point's coordinate line, and a
//! trailing library directive.  The fragments are read once from disk and
//! never modified; the coordinate lines are handed in ready-made.  Assembly
//! is a pure function of those inputs, so identical inputs always produce a
//! byte-identical request.
//!
//! The name of the durable output file is assembled here as well.

use vstd::prelude::*;
use vstd::string::StringSliceAdditionalSpecFns;
use crate::digits::{append_bytes, dec_digits, decimal_of_u128};

verus! {

/// The job-control line opening every request.
pub open spec fn header_bytes() -> Seq<u8> {
    "conp opti\n".spec_bytes()
}

/// Directive opening the first structural region of a point block.
pub open spec fn region_one_bytes() -> Seq<u8> {
    "cart region 1\n".spec_bytes()
}

/// Directive opening the second, rigid structural region.
pub open spec fn region_two_bytes() -> Seq<u8> {
    "cart region 2 rigid\n".spec_bytes()
}

/// Library directive closing every point block.
pub open spec fn trailer_bytes() -> Seq<u8> {
    "\nlibrary streitzmintmire\n\n".spec_bytes()
}

/// The block a single point contributes to the request.
pub open spec fn point_block(nn: Seq<u8>, n2: Seq<u8>, line: Seq<u8>) -> Seq<u8> {
    region_one_bytes() + nn + region_two_bytes() + n2 + line + trailer_bytes()
}

/// The blocks of all points of a row, in submission order.
pub open spec fn blocks_of(nn: Seq<u8>, n2: Seq<u8>, lines: Seq<Seq<u8>>) -> Seq<u8>
    decreases lines.len(),
{
    if lines.len() == 0 {
        Seq::empty()
    } else {
        blocks_of(nn, n2, lines.drop_last()) + point_block(nn, n2, lines.last())
    }
}

/// The whole request for one row.
pub open spec fn request_spec(nn: Seq<u8>, n2: Seq<u8>, lines: Seq<Seq<u8>>) -> Seq<u8> {
    header_bytes() + blocks_of(nn, n2, lines)
}

/// The request for one row: header, then one block per coordinate line,
/// with the two cluster fragments repeated verbatim in every block.
pub fn assemble_request(nn: &[u8], n2: &[u8], coord_lines: &Vec<Vec<u8>>) -> (req: Vec<u8>)
    ensures
        req@ == request_spec(nn@, n2@, coord_lines.deep_view()),
{
    let mut req: Vec<u8> = Vec::new();
    append_bytes(&mut req, "conp opti\n".as_bytes());
    proof {
        assert(req@ =~= header_bytes());
        assert(coord_lines.deep_view().take(0) =~= Seq::<Seq<u8>>::empty());
        assert(req@ =~= request_spec(nn@, n2@, coord_lines.deep_view().take(0)));
    }
    let mut k: usize = 0;
    while k < coord_lines.len()
        invariant
            k <= coord_lines@.len(),
            req@ == request_spec(nn@, n2@, coord_lines.deep_view().take(k as int)),
        decreases coord_lines@.len() - k,
    {
        append_bytes(&mut req, "cart region 1\n".as_bytes());
        append_bytes(&mut req, nn);
        append_bytes(&mut req, "cart region 2 rigid\n".as_bytes());
        append_bytes(&mut req, n2);
        append_bytes(&mut req, coord_lines[k].as_slice());
        append_bytes(&mut req, "\nlibrary streitzmintmire\n\n".as_bytes());
        k = k + 1;
        proof {
            let lines = coord_lines.deep_view();
            assert(lines.take(k as int).drop_last() =~= lines.take(k - 1));
            assert(lines.take(k as int).last() == lines[k - 1]);
            assert(coord_lines@[k - 1]@ == lines[k - 1]);
            assert(req@ =~= request_spec(nn@, n2@, lines.take(k as int)));
        }
    }
    proof {
        assert(coord_lines.deep_view().take(coord_lines@.len() as int)
            =~= coord_lines.deep_view());
    }
    req
}

/// Template assembly is deterministic: two requests assembled from the same
/// cluster fragments and the same coordinate lines are byte-identical,
/// however often and wherever they are built.
pub proof fn lemma_request_deterministic(
    nn: Seq<u8>,
    n2: Seq<u8>,
    lines: Seq<Seq<u8>>,
    r1: Seq<u8>,
    r2: Seq<u8>,
)
    requires
        r1 == request_spec(nn, n2, lines),
        r2 == request_spec(nn, n2, lines),
    ensures
        r1 == r2,
{
}

/// The name of the output file: `potential_<node>.dat`, or
/// `potential_<node>.c<chunk>.dat` when the run covers one chunk.
pub open spec fn output_name_spec(node: u32, chunk: Option<u32>) -> Seq<u8> {
    "potential_".spec_bytes() + dec_digits(node as int) + (match chunk {
        Option::None => Seq::<u8>::empty(),
        Option::Some(c) => ".c".spec_bytes() + dec_digits(c as int),
    }) + ".dat".spec_bytes()
}

/// The name of the output file owned by this invocation.
pub fn output_file_name(node: u32, chunk: Option<u32>) -> (name: Vec<u8>)
    ensures
        name@ == output_name_spec(node, chunk),
{
    let mut name: Vec<u8> = Vec::new();
    append_bytes(&mut name, "potential_".as_bytes());
    let node_digits = decimal_of_u128(node as u128);
    append_bytes(&mut name, node_digits.as_slice());
    match chunk {
        Option::None => {},
        Option::Some(c) => {
            append_bytes(&mut name, ".c".as_bytes());
            let chunk_digits = decimal_of_u128(c as u128);
            append_bytes(&mut name, chunk_digits.as_slice());
        },
    }
    append_bytes(&mut name, ".dat".as_bytes());
    proof {
        assert(name@ =~= output_name_spec(node, chunk));
    }
    name
}

} // verus!
