use shell2batch::rules::{
    classify, classify_command, push_flipped, render, scan_word, split_word, translate, Command,
    OVERRIDE_MARKER,
};
use shell2batch::text::{chars_of, string_of};

fn translated(line: &str) -> Option<String> {
    translate(&chars_of(line)).map(|batch| string_of(&batch))
}

fn batch(line: &str) -> String {
    translated(line).unwrap()
}

#[test]
fn marker_text() {
    assert_eq!(OVERRIDE_MARKER, "# shell2batch: ");
}

#[test]
fn first_word_and_the_rest() {
    let line = chars_of("cp  -r \t a b");
    assert_eq!(scan_word(&line), 2);
    let (word, rest) = split_word(&line);
    assert_eq!(string_of(word), "cp");
    assert_eq!(string_of(rest), "-r \t a b");
    let (flag, operands) = split_word(rest);
    assert_eq!(string_of(flag), "-r");
    assert_eq!(string_of(operands), "a b");
    assert_eq!(scan_word(&chars_of("")), 0);
    assert_eq!(scan_word(&chars_of(" a")), 0);
    assert_eq!(scan_word(&chars_of("abc")), 3);
}

#[test]
fn export_with_a_value() {
    assert_eq!(batch("export FILE1=file1"), "set FILE1=file1");
    assert_eq!(batch("export MY_DIR=directory"), "set MY_DIR=directory");
    assert_eq!(batch("   export _a1=b c  "), "set _a1=b c");
    assert_eq!(batch("export\tA=b"), "set A=b");
    assert_eq!(batch("export   A=b"), "set A=b");
}

#[test]
fn export_with_an_empty_value() {
    assert_eq!(batch("export A="), "set A=");
}

#[test]
fn export_rewrites_references_in_the_value() {
    assert_eq!(batch("export A=$B/${C}.txt"), "set A=%B%/%C%.txt");
    assert_eq!(batch("export PATH=$PATH:/opt/bin"), "set PATH=%PATH%:/opt/bin");
}

#[test]
fn export_without_assignment_is_kept() {
    assert_eq!(batch("export A"), "export A");
    assert_eq!(batch("export"), "export");
    assert_eq!(batch("  export A B  "), "  export A B  ");
    assert_eq!(batch("export 1A=2"), "export 1A=2");
    assert_eq!(batch("export A =b"), "export A =b");
    assert_eq!(batch("export =b"), "export =b");
    assert_eq!(batch("export $A=b"), "export $A=b");
}

#[test]
fn unset_of_one_name() {
    assert_eq!(batch("unset MY_DIR"), "set MY_DIR=");
    assert_eq!(batch("\tunset  _x \r"), "set _x=");
}

#[test]
fn unset_of_anything_else_is_kept() {
    assert_eq!(batch("unset"), "unset");
    assert_eq!(batch("unset A B"), "unset A B");
    assert_eq!(batch("unset 9"), "unset 9");
    assert_eq!(batch("unset $A"), "unset $A");
    assert_eq!(batch("unset -f A"), "unset -f A");
}

#[test]
fn copy_of_files() {
    assert_eq!(batch("cp a b"), "copy a b");
    assert_eq!(batch("cp ${FILE1} $FILE2"), "copy %FILE1% %FILE2%");
    assert_eq!(batch("cp src/a.txt build/out/"), "copy src\\a.txt build\\out\\");
}

#[test]
fn copy_of_a_tree() {
    assert_eq!(batch("cp -r a b"), "xcopy /E a b");
    assert_eq!(batch("cp -r ${DIR1} $DIR2"), "xcopy /E %DIR1% %DIR2%");
    assert_eq!(batch("  cp   -r   src/x    $OUT/y  "), "xcopy /E src\\x    %OUT%\\y");
}

#[test]
fn copy_with_other_flags_is_kept() {
    assert_eq!(batch("cp -R a b"), "cp -R a b");
    assert_eq!(batch("cp -rf a b"), "cp -rf a b");
    assert_eq!(batch("cp -r -f a b"), "cp -r -f a b");
    assert_eq!(batch("cp -r"), "cp -r");
    assert_eq!(batch("cp"), "cp");
    assert_eq!(batch("  cp -a $A b"), "  cp -a $A b");
}

#[test]
fn move_of_files() {
    assert_eq!(batch("mv file2 file3"), "move file2 file3");
    assert_eq!(batch("mv $A/b ${C}/d"), "move %A%\\b %C%\\d");
    assert_eq!(batch("mv"), "mv");
    assert_eq!(batch("mv -f a b"), "mv -f a b");
}

#[test]
fn removal_of_files() {
    assert_eq!(batch("rm a"), "del a");
    assert_eq!(batch("rm ./a/b.txt $C"), "del .\\a\\b.txt %C%");
}

#[test]
fn removal_of_a_tree() {
    assert_eq!(batch("rm -Rf ${MY_DIR}"), "rmdir /S /Q %MY_DIR%");
    for flag in ["-rf", "-rF", "-Rf", "-RF", "-fr", "-fR", "-Fr", "-FR"] {
        let line = format!("rm {} target/debug", flag);
        assert_eq!(batch(&line), "rmdir /S /Q target\\debug", "{}", flag);
    }
}

#[test]
fn removal_with_other_flags_is_kept() {
    for line in ["rm", "rm -Rf", "rm -r a", "rm -f a", "rm -rfv a", "rm -rr a", "rm -ff a", "rm -Rf -v a", "rm -- a"] {
        assert_eq!(batch(line), line);
    }
}

#[test]
fn touch_of_one_path() {
    assert_eq!(batch("touch ./file3"), "copy /B .\\file3+,, .\\file3");
    assert_eq!(batch("touch a"), "copy /B a+,, a");
    assert_eq!(batch("touch $DIR/${NAME}.log"), "copy /B %DIR%\\%NAME%.log+,, %DIR%\\%NAME%.log");
}

#[test]
fn touch_of_anything_else_is_kept() {
    assert_eq!(batch("touch"), "touch");
    assert_eq!(batch("touch a b"), "touch a b");
    assert_eq!(batch("touch -c a"), "touch -c a");
}

#[test]
fn set_x_yields_no_line() {
    assert_eq!(translated("set -x"), None);
    assert_eq!(translated("  set \t -x  "), None);
}

#[test]
fn other_uses_of_set_are_kept() {
    assert_eq!(batch("set"), "set");
    assert_eq!(batch("set +x"), "set +x");
    assert_eq!(batch("set -e"), "set -e");
    assert_eq!(batch("set -x -e"), "set -x -e");
    assert_eq!(batch("set -X"), "set -X");
    assert_eq!(batch("set -xe"), "set -xe");
}

#[test]
fn comment_becomes_remark() {
    assert_eq!(batch("#this is some test code"), "@REM this is some test code");
    assert_eq!(batch("# spaced"), "@REM  spaced");
    assert_eq!(batch("#"), "@REM ");
    assert_eq!(batch("   #indented \t"), "@REM indented");
    assert_eq!(batch("#!/bin/sh"), "@REM !/bin/sh");
}

#[test]
fn comment_has_its_references_rewritten() {
    assert_eq!(batch("# uses $HOME and ${TMP}"), "@REM  uses %HOME% and %TMP%");
    assert_eq!(batch("#cp a/b $C"), "@REM cp a/b %C%");
}

#[test]
fn override_gives_the_text_behind_the_marker() {
    assert_eq!(
        batch("complex_bash_command --flag1 value2 # shell2batch: complex_windows_command /flag10 windows_value"),
        "complex_windows_command /flag10 windows_value"
    );
    assert_eq!(batch("x # shell2batch:    padded   \t"), "padded");
    assert_eq!(batch("# shell2batch: dir"), "dir");
    assert_eq!(batch("x # shell2batch: "), "");
    assert_eq!(batch("x# shell2batch: y"), "y");
}

#[test]
fn override_beats_every_rule() {
    assert_eq!(batch("rm -Rf a # shell2batch: rd /s a"), "rd /s a");
    assert_eq!(batch("export A=b # shell2batch: setx A b"), "setx A b");
    assert_eq!(batch("#comment # shell2batch: REM other"), "REM other");
    assert_eq!(translated("set -x # shell2batch: @echo off"), Some("@echo off".to_string()));
    assert_eq!(batch("   # shell2batch: only"), "only");
}

#[test]
fn override_text_is_taken_as_it_stands() {
    assert_eq!(batch("x # shell2batch: echo $HOME ${A} a/b"), "echo $HOME ${A} a/b");
    assert_eq!(batch("x # shell2batch: set -x"), "set -x");
}

#[test]
fn override_starts_at_the_leftmost_marker() {
    assert_eq!(batch("a # shell2batch: b # shell2batch: c"), "b # shell2batch: c");
}

#[test]
fn marker_must_be_whole() {
    assert_eq!(batch("foo # shell2batch:"), "foo # shell2batch:");
    assert_eq!(batch("foo # shell2batch:bar"), "foo # shell2batch:bar");
    assert_eq!(batch("foo #shell2batch: bar"), "foo #shell2batch: bar");
    assert_eq!(batch("foo # Shell2batch: bar"), "foo # Shell2batch: bar");
    assert_eq!(batch("#shell2batch: bar"), "@REM shell2batch: bar");
}

#[test]
fn blank_lines_are_kept() {
    assert_eq!(batch(""), "");
    assert_eq!(batch("   "), "   ");
    assert_eq!(batch("\t \r"), "\t \r");
}

#[test]
fn unknown_commands_are_kept() {
    assert_eq!(batch("echo $HOME"), "echo $HOME");
    assert_eq!(batch("  ls -la /tmp  "), "  ls -la /tmp  ");
    assert_eq!(batch("CP a b"), "CP a b");
    assert_eq!(batch("cpx a b"), "cpx a b");
    assert_eq!(batch("if [ -f a ]; then"), "if [ -f a ]; then");
    assert_eq!(batch("a=b"), "a=b");
    assert_eq!(batch("cd ${DIR}"), "cd ${DIR}");
}

#[test]
fn classify_names_the_shape() {
    assert!(matches!(classify(&chars_of("")), Command::Blank));
    assert!(matches!(classify(&chars_of(" \t")), Command::Blank));
    assert!(matches!(classify(&chars_of("ls")), Command::Other));
    assert!(matches!(classify(&chars_of("set -x")), Command::SetX));
    let line = chars_of("  export A=b  ");
    assert!(matches!(classify(&line), Command::Export(binding) if string_of(binding) == "A=b"));
    let line = chars_of("unset A");
    assert!(matches!(classify(&line), Command::Unset(name) if string_of(name) == "A"));
    let line = chars_of("cp a b");
    assert!(matches!(classify(&line), Command::Cp(operands) if string_of(operands) == "a b"));
    let line = chars_of("cp -r a b");
    assert!(matches!(classify(&line), Command::CpRecursive(operands) if string_of(operands) == "a b"));
    let line = chars_of("mv a b");
    assert!(matches!(classify(&line), Command::Mv(operands) if string_of(operands) == "a b"));
    let line = chars_of("rm a/b");
    assert!(matches!(classify(&line), Command::Rm(operands) if string_of(operands) == "a/b"));
    let line = chars_of("rm -fR a/b");
    assert!(matches!(classify(&line), Command::RmRecursive(operands) if string_of(operands) == "a/b"));
    let line = chars_of("touch a/b");
    assert!(matches!(classify(&line), Command::Touch(path) if string_of(path) == "a/b"));
    let line = chars_of(" #note ");
    assert!(matches!(classify(&line), Command::Comment(text) if string_of(text) == "note"));
    let line = chars_of("x # shell2batch:  y ");
    assert!(matches!(classify(&line), Command::Override(text) if string_of(text) == "y"));
}

#[test]
fn classify_command_reads_the_table() {
    let args = chars_of("-r a b");
    assert!(matches!(
        classify_command(&chars_of("cp"), &args),
        Command::CpRecursive(operands) if string_of(operands) == "a b"
    ));
    assert!(matches!(classify_command(&chars_of("rm"), &args), Command::Other));
    assert!(matches!(classify_command(&chars_of("frobnicate"), &args), Command::Other));
    let flag = chars_of("-x");
    assert!(matches!(classify_command(&chars_of("set"), &flag), Command::SetX));
}

#[test]
fn render_keeps_references_in_shell_form() {
    let operands = chars_of("$A/b c");
    assert_eq!(string_of(&render(&Command::Cp(&operands))), "copy $A\\b c");
    assert_eq!(string_of(&render(&Command::CpRecursive(&operands))), "xcopy /E $A\\b c");
    assert_eq!(string_of(&render(&Command::Mv(&operands))), "move $A\\b c");
    assert_eq!(string_of(&render(&Command::Rm(&operands))), "del $A\\b c");
    assert_eq!(string_of(&render(&Command::RmRecursive(&operands))), "rmdir /S /Q $A\\b c");
    assert_eq!(string_of(&render(&Command::Comment(&operands))), "@REM $A/b c");
    assert_eq!(string_of(&render(&Command::Export(&operands))), "set $A/b c");
    let name = chars_of("A");
    assert_eq!(string_of(&render(&Command::Unset(&name))), "set A=");
    let path = chars_of("a/$B");
    assert_eq!(string_of(&render(&Command::Touch(&path))), "copy /B a\\$B+,, a\\$B");
}

#[test]
fn render_of_the_other_shapes_is_empty() {
    let text = chars_of("x");
    assert_eq!(render(&Command::Override(&text)), Vec::<char>::new());
    assert_eq!(render(&Command::Blank), Vec::<char>::new());
    assert_eq!(render(&Command::SetX), Vec::<char>::new());
    assert_eq!(render(&Command::Other), Vec::<char>::new());
}

#[test]
fn slashes_are_flipped() {
    let mut out = vec!['>'];
    push_flipped(&mut out, &chars_of("a/b\\c//d"));
    assert_eq!(string_of(&out), ">a\\b\\c\\\\d");
}

#[test]
fn rewritten_lines_hold_no_reference() {
    for line in [
        "cp ${A}/x $B",
        "#see $HOME",
        "export A=$B${C}$",
        "touch $A",
        "rm -rf ${T}/$U",
        "mv $$A ${B$C}",
    ] {
        let out = translate(&chars_of(line)).unwrap();
        for at in 0..=out.len() {
            assert_eq!(shell2batch::vars::scan_reference(&out[at..]), None, "{:?}", line);
        }
    }
}
