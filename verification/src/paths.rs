//! Output-name handling: whether a file name selects gzip compression, and
//! the forced plaintext/gzip override applied to computed output names.

use vstd::prelude::*;

verus! {

/// The output-format override: preserve each input file's own
/// compression-by-suffix when absent, else force plaintext or gzip output.
#[derive(Clone, Copy, PartialEq, Eq, Debug)]
pub enum OutputFormat {
    Plaintext,
    Gzipped,
}

/// The bytes of the compressed-file suffix, `.gz`.
pub open spec fn gz_suffix() -> Seq<u8> {
    seq![46u8, 103u8, 122u8]
}

/// Whether a file name ends in the compressed-file suffix.
pub open spec fn ends_in_gz(name: Seq<u8>) -> bool {
    name.len() >= 3 && name.subrange(name.len() - 3, name.len() as int) == gz_suffix()
}

/// The name the override rule computes: `Plaintext` strips a trailing `.gz`
/// if present, `Gzipped` appends one if absent, and no override keeps the
/// name as it is.
pub open spec fn spec_apply_format(name: Seq<u8>, fmt: Option<OutputFormat>) -> Seq<u8> {
    match fmt {
        Some(OutputFormat::Plaintext) => if ends_in_gz(name) {
            name.take(name.len() - 3)
        } else {
            name
        },
        Some(OutputFormat::Gzipped) => if ends_in_gz(name) {
            name
        } else {
            name + gz_suffix()
        },
        None => name,
    }
}

/// Whether `name` ends in `.gz`, hence selects transparent compression.
pub fn name_ends_in_gz(name: &Vec<u8>) -> (r: bool)
    ensures
        r == ends_in_gz(name@),
{
    let n = name.len();
    if n < 3 {
        return false;
    }
    let r = name[n - 3] == 46u8 && name[n - 2] == 103u8 && name[n - 1] == 122u8;
    proof {
        assert(name@.subrange(n - 3, n as int) =~= seq![
            name@[n - 3],
            name@[n - 2],
            name@[n - 1],
        ]);
    }
    r
}

/// Applies the output-format override to a computed output file name.
pub fn apply_output_format(name: Vec<u8>, fmt: &Option<OutputFormat>) -> (r: Vec<u8>)
    ensures
        r@ == spec_apply_format(name@, *fmt),
{
    let mut name = name;
    match fmt {
        Some(OutputFormat::Plaintext) => {
            if name_ends_in_gz(&name) {
                let n = name.len();
                name.truncate(n - 3);
            }
            name
        },
        Some(OutputFormat::Gzipped) => {
            if !name_ends_in_gz(&name) {
                let ghost before = name@;
                name.push(46u8);
                name.push(103u8);
                name.push(122u8);
                proof {
                    assert(name@ =~= before + gz_suffix());
                }
            }
            name
        },
        None => name,
    }
}

/// The override rule is idempotent: forcing gzip on a name that already
/// carries the suffix, or plaintext on one without it, changes nothing.
pub proof fn lemma_format_override_idempotent(name: Seq<u8>)
    ensures
        ends_in_gz(name) ==> spec_apply_format(name, Some(OutputFormat::Gzipped)) == name,
        !ends_in_gz(name) ==> spec_apply_format(name, Some(OutputFormat::Plaintext)) == name,
{
}

} // verus!
