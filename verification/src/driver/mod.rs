use vstd::prelude::*;

use crate::text::{push_str, string_from_chars};

pub mod graph;
pub mod toolchain;

verus! {

/// The options that every C compilation of generated code gets: strict C11, all warnings as
/// errors, and a floating-point profile that keeps the language's semantics.
pub fn c_compiler_options() -> (options: Vec<&'static str>)
    ensures
        options@.len() == 10,
        options@[0]@ == "-std=c11"@,
        options@[1]@ == "-Wall"@,
        options@[2]@ == "-Wextra"@,
        options@[3]@ == "-Werror"@,
        options@[4]@ == "-pedantic"@,
        options@[5]@ == "-O2"@,
        options@[6]@ == "-fno-fast-math"@,
        options@[7]@ == "-ffp-contract=off"@,
        options@[8]@ == "-frounding-math"@,
        options@[9]@ == "-fexcess-precision=standard"@,
{
    let mut options: Vec<&'static str> = Vec::new();
    options.push("-std=c11");
    options.push("-Wall");
    options.push("-Wextra");
    options.push("-Werror");
    options.push("-pedantic");
    options.push("-O2");
    options.push("-fno-fast-math");
    options.push("-ffp-contract=off");
    options.push("-frounding-math");
    options.push("-fexcess-precision=standard");
    options
}

/// The characters of each string.
pub open spec fn texts(strings: Seq<String>) -> Seq<Seq<char>> {
    strings.map_values(|text: String| text@)
}

/// The options that every C compilation of generated code gets, as characters.
pub open spec fn fixed_compiler_options() -> Seq<Seq<char>> {
    seq![
        "-std=c11"@,
        "-Wall"@,
        "-Wextra"@,
        "-Werror"@,
        "-pedantic"@,
        "-O2"@,
        "-fno-fast-math"@,
        "-ffp-contract=off"@,
        "-frounding-math"@,
        "-fexcess-precision=standard"@,
    ]
}

/// The arguments of a C compilation: the fixed options, the include directory after `-I`, the
/// generated inputs, the required inputs, and the output path after `-o`.
pub fn c_compiler_arguments(
    include_directory: &str,
    generated_inputs: &Vec<String>,
    required_inputs: &Vec<String>,
    output_path: &str,
) -> (arguments: Vec<String>)
    ensures
        texts(arguments@) == fixed_compiler_options() + seq!["-I"@, include_directory@] + texts(
            generated_inputs@,
        ) + texts(required_inputs@) + seq!["-o"@, output_path@],
{
    let options = c_compiler_options();
    let mut arguments: Vec<String> = Vec::new();
    let mut k: usize = 0;
    while k < options.len()
        invariant
            k <= options@.len(),
            options@.len() == 10,
            arguments@.len() == k,
            forall|i: int| 0 <= i < k ==> (#[trigger] arguments@[i])@ == options@[i]@,
        decreases options@.len() - k,
    {
        arguments.push(options[k].to_owned());
        k = k + 1;
    }
    let ghost fixed = arguments@;
    arguments.push("-I".to_owned());
    arguments.push(include_directory.to_owned());
    let ghost with_include = arguments@;
    assert(with_include.len() == 12);
    let mut k: usize = 0;
    while k < generated_inputs.len()
        invariant
            k <= generated_inputs@.len(),
            arguments@.len() == with_include.len() + k,
            forall|i: int| 0 <= i < with_include.len() ==> #[trigger] arguments@[i] == with_include[i],
            forall|i: int| 0 <= i < k ==> #[trigger] arguments@[with_include.len() + i] == generated_inputs@[i],
        decreases generated_inputs@.len() - k,
    {
        arguments.push(generated_inputs[k].clone());
        k = k + 1;
    }
    let ghost with_generated = arguments@;
    let mut k: usize = 0;
    while k < required_inputs.len()
        invariant
            k <= required_inputs@.len(),
            arguments@.len() == with_generated.len() + k,
            forall|i: int| 0 <= i < with_generated.len() ==> #[trigger] arguments@[i] == with_generated[i],
            forall|i: int| 0 <= i < k ==> #[trigger] arguments@[with_generated.len() + i] == required_inputs@[i],
        decreases required_inputs@.len() - k,
    {
        arguments.push(required_inputs[k].clone());
        k = k + 1;
    }
    arguments.push("-o".to_owned());
    arguments.push(output_path.to_owned());
    proof {
        let expected = fixed_compiler_options() + seq!["-I"@, include_directory@] + texts(
            generated_inputs@,
        ) + texts(required_inputs@) + seq!["-o"@, output_path@];
        let g = generated_inputs@.len() as int;
        let r = required_inputs@.len() as int;
        assert forall|i: int| 0 <= i < expected.len() implies #[trigger] texts(arguments@)[i] == expected[i] by {
            if i < 10 {
                assert(arguments@[i] == fixed[i]);
            } else if i < 12 {
                assert(arguments@[i] == with_include[i]);
            } else if i < 12 + g {
                let j = i - 12;
                assert(arguments@[i] == with_generated[i]);
                assert(with_generated[with_include.len() + j] == generated_inputs@[j]);
            } else if i < 12 + g + r {
                let j = i - 12 - g;
                assert(arguments@[with_generated.len() + j] == required_inputs@[j]);
            }
        }
        assert(texts(arguments@) =~= expected);
    }
    arguments
}

/// A failure of the compiler driver, with the message it prints.
#[derive(Clone, Debug, Eq, PartialEq)]
pub struct Error {
    message: String,
}

impl Error {
    pub closed spec fn spec_message(&self) -> Seq<char> {
        self.message@
    }

    pub fn new(message: String) -> (error: Error)
        ensures
            error.spec_message() == message@,
    {
        Error { message }
    }

    /// The message, as printed.
    pub fn message(&self) -> (message: &str)
        ensures
            message@ == self.spec_message(),
    {
        self.message.as_str()
    }
}

/// An error whose message is `before` followed by `after`.
pub fn error_with(before: &str, after: &str) -> (error: Error)
    ensures
        error.spec_message() == before@ + after@,
{
    let mut text: Vec<char> = Vec::new();
    push_str(&mut text, before);
    push_str(&mut text, after);
    Error::new(string_from_chars(&text))
}

} // verus!
