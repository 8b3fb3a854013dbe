use qad::text::{trim_end_of, trim_of};
use qad::ci::clean::try_cleanup;
use qad::ci::job::env_bag::{EnvBag, SimpleEnvBag};
use qad::ci::job::env_parser::EnvMap;
use qad::ci::job::instruction_interpreter::InstructionInterpreter;
use qad::ci::job::instruction_parser::InstructionParser;
use qad::config::instructions::whitespaces::WhitespacesPass;
use qad::config::instructions::{InstructionCompiler, InstructionCompilerPass};

/// The environment of the tests: user `uid`, group `gid`, directory `pwd`,
/// and one variable, `KEY`, of value `VALUE`.
fn test_env_bag() -> SimpleEnvBag {
    let mut env = EnvMap::new();
    env.insert("KEY".to_string(), vec!["VALUE".to_string()]);
    SimpleEnvBag::new("uid".to_string(), "gid".to_string(), "pwd".to_string(), env)
}

#[test]
pub fn iterate_normal() {
    let instructions = vec!["Parse this $KEY please".to_string()];
    let mut parser = InstructionInterpreter::arc_mutex(test_env_bag(), &instructions);

    assert_eq!(
        Some(vec!["Parse".to_string(), "this".to_string(), "VALUE".to_string(), "please".to_string()]),
        parser.next()
    );
    assert_eq!(None, parser.next());
}

#[test]
pub fn unknown_variable_stays() {
    let instructions = vec!["echo $OTHER".to_string(), "$KEY".to_string()];
    let mut parser = InstructionInterpreter::arc_mutex(test_env_bag(), &instructions);
    assert_eq!(Some(vec!["echo".to_string(), "$OTHER".to_string()]), parser.next());
    assert_eq!(Some(vec!["VALUE".to_string()]), parser.next());
}

#[test]
pub fn parser_splits_on_spaces() {
    let instructions = vec!["a  b".to_string()];
    let mut parser = InstructionParser::new(&test_env_bag(), &instructions);
    assert_eq!(Some(vec!["a".to_string(), "".to_string(), "b".to_string()]), parser.next());
    assert_eq!(None, parser.next());
}

#[test]
pub fn simple_env_bag_reads_its_variables() {
    let mut env = EnvMap::new();
    env.insert("K".to_string(), vec!["1".to_string(), "2".to_string()]);
    let mut bag = SimpleEnvBag::new("u".to_string(), "g".to_string(), "p".to_string(), env);
    assert_eq!(bag.user(), "u");
    assert_eq!(bag.group(), "g");
    assert_eq!(bag.pwd(), "p");
    assert_eq!(bag.read("K"), Some(vec!["1".to_string(), "2".to_string()]));
    assert_eq!(bag.read("L"), None);
}

#[test]
pub fn test_cleanup() {
    let compiler = InstructionCompiler::default();

    assert_eq!(&compiler.compile("  string with bad  spacing"), "string with bad spacing");
}

#[test]
pub fn whitespace_pass_handles_tabs_and_lines() {
    assert_eq!(WhitespacesPass {}.interpret("a\t\tb\nc  "), "a b c");
    assert_eq!(WhitespacesPass {}.interpret("   "), "");
}

#[test]
pub fn cleanup_of_outputs() {
    assert_eq!(try_cleanup("  \n "), "");
    assert_eq!(try_cleanup("line\u{1b}[2K\u{1b}[1Gdone  \n"), "linedone\n");
}

#[test]
pub fn unicode_whitespace_is_whitespace() {
    assert_eq!(WhitespacesPass {}.interpret("\u{a0}a\u{3000}\u{2003}b\u{85}"), "a b");
    assert_eq!(try_cleanup("done\u{2028}\u{a0}"), "done\n");
    assert_eq!(try_cleanup("\u{1b}[2\u{1b}[1GK"), "\u{1b}[2K\n");
    assert_eq!(try_cleanup("\u{1b}[3K"), "\u{1b}[3K\n");
}

#[test]
pub fn interpreter_hands_out_each_instruction_once_then_nothing() {
    let instructions = vec!["a $KEY".to_string(), "b".to_string(), "".to_string()];
    let mut parser = InstructionInterpreter::arc_mutex(test_env_bag(), &instructions);
    assert_eq!(Some(vec!["a".to_string(), "VALUE".to_string()]), parser.next());
    assert_eq!(Some(vec!["b".to_string()]), parser.next());
    assert_eq!(Some(vec!["".to_string()]), parser.next());
    assert_eq!(None, parser.next());
    assert_eq!(None, parser.next());
    assert_eq!(None, parser.next());
}

#[test]
pub fn trimming_as_std_does() {
    for text in ["", "   ", " a b ", "\u{a0}x\u{3000}", "\t\n y\r\n", "\u{85}z\u{200b}", "k\u{205f}"] {
        assert_eq!(trim_of(text), text.trim());
        assert_eq!(trim_end_of(text), text.trim_end());
    }
}
