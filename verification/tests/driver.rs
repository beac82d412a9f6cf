use lib::driver::c_compiler_arguments;
use lib::driver::c_compiler_options;
use lib::driver::toolchain::optimization::OptimizationProfile;
use lib::driver::toolchain::quoted_module_property;

#[test]
fn public_build_uses_optimization_with_the_strict_float_profile() {
    assert_eq!(
        c_compiler_options(),
        [
            "-std=c11",
            "-Wall",
            "-Wextra",
            "-Werror",
            "-pedantic",
            "-O2",
            "-fno-fast-math",
            "-ffp-contract=off",
            "-frounding-math",
            "-fexcess-precision=standard",
        ]
    );
}

#[test]
fn parses_target_properties_from_clang_ir() {
    let module = "target datalayout = \"e-p:64:64\"\ntarget triple = \"x86_64-test\"\n";
    assert_eq!(
        quoted_module_property(module, "target datalayout").unwrap(),
        "e-p:64:64"
    );
    assert_eq!(
        quoted_module_property(module, "target triple").unwrap(),
        "x86_64-test"
    );
}

#[test]
fn keeps_toolchain_optimization_out_of_the_semantic_profile() {
    assert_eq!(
        OptimizationProfile::Baseline.arguments(),
        ["-O0", "-Wno-error=#warnings"]
    );
    assert_eq!(
        OptimizationProfile::Production.arguments(),
        ["-O2", "-flto"]
    );
}

#[test]
fn a_missing_property_is_reported_by_name() {
    let module = "target datalayout = \"e\"\n";
    let error = quoted_module_property(module, "target triple").unwrap_err();
    assert_eq!(error.message(), "malc: Clang did not report target triple");
}

#[test]
fn an_empty_property_value_is_refused() {
    let module = "target triple = \"\"\n";
    assert!(quoted_module_property(module, "target triple").is_err());
}

#[test]
fn the_first_line_with_the_property_decides_and_crlf_is_a_line_end() {
    let module = "; comment\r\ntarget triple = \"first\"\r\ntarget triple = \"second\"\n";
    assert_eq!(quoted_module_property(module, "target triple").unwrap(), "first");
    let unterminated = "target triple = \"open\ntarget triple = \"closed\"\n";
    assert!(quoted_module_property(unterminated, "target triple").is_err());
}

#[test]
fn the_c_compiler_gets_includes_inputs_and_output_after_the_fixed_options() {
    let generated = vec![String::from("/tmp/m/program.ll")];
    let required: Vec<String> = Vec::new();
    let arguments = c_compiler_arguments("/tmp/m", &generated, &required, "out");
    assert_eq!(
        arguments,
        [
            "-std=c11",
            "-Wall",
            "-Wextra",
            "-Werror",
            "-pedantic",
            "-O2",
            "-fno-fast-math",
            "-ffp-contract=off",
            "-frounding-math",
            "-fexcess-precision=standard",
            "-I",
            "/tmp/m",
            "/tmp/m/program.ll",
            "-o",
            "out",
        ]
    );
}

#[test]
fn required_inputs_follow_the_generated_ones() {
    let generated = vec![String::from("a.ll"), String::from("b.ll")];
    let required = vec![String::from("runtime.c")];
    let arguments = c_compiler_arguments("inc", &generated, &required, "prog");
    assert_eq!(
        arguments[10..],
        ["-I", "inc", "a.ll", "b.ll", "runtime.c", "-o", "prog"]
    );
}
