use simlogtail::cli::{OptTyp, OptVal, CLI};

fn argv(items: &[&str]) -> Vec<String> {
    items.iter().map(|s| s.to_string()).collect()
}

fn tail_cli() -> CLI {
    let mut cli = CLI::new();
    cli.description("Where opts are:")
        .opt("n", OptTyp::Num)
        .description("Number of shown lines")
        .opt("v", OptTyp::NoArg)
        .description("Version of the product")
        .opt("h", OptTyp::NoArg)
        .description("This help screen")
        .opt("c", OptTyp::NoArg)
        .description("Do not show and count empty lines in the out");
    cli
}

#[test]
fn description_lists_options() {
    let cli = tail_cli();
    assert_eq!(
        cli.get_description(),
        Some(
            "Where opts are:\nn\tNumber of shown lines\nv\tVersion of the product\nh\tThis help screen\nc\tDo not show and count empty lines in the out"
                .to_string()
        )
    );
}

#[test]
fn description_empty_and_without_texts() {
    let cli = CLI::new();
    assert_eq!(cli.get_description(), None);
    let mut cli = CLI::new();
    cli.opt("a", OptTyp::Str).opt("b", OptTyp::NoArg);
    assert_eq!(cli.get_description(), Some("\na\nb".to_string()));
}

#[test]
fn parse_options_and_arguments() {
    let mut cli = tail_cli();
    assert_eq!(cli.get_opt("n"), None);
    cli.parse_from(&argv(&["simtail", "-n", "20", "log.txt", "-c", "other.log"]));
    assert_eq!(cli.get_opt("n"), Some(&OptVal::Num(20)));
    assert_eq!(cli.get_opt("c"), Some(&OptVal::Empty));
    assert_eq!(cli.get_opt("v"), None);
    assert_eq!(cli.get_opt("missing"), None);
    assert_eq!(cli.args(), &argv(&["log.txt", "other.log"]));
}

#[test]
fn parse_bad_and_missing_values() {
    let mut cli = tail_cli();
    cli.parse_from(&argv(&["simtail", "-n", "x12"]));
    assert_eq!(cli.get_opt("n"), Some(&OptVal::Unmatch));
    let mut cli = tail_cli();
    cli.parse_from(&argv(&["simtail", "-n"]));
    assert_eq!(cli.get_opt("n"), None);
    assert!(cli.args().is_empty());
}

#[test]
fn parse_float_and_text_values() {
    let mut cli = CLI::new();
    cli.opt("r", OptTyp::FNum).opt("s", OptTyp::Str).opt("q", OptTyp::FNum);
    cli.parse_from(&argv(&["prog", "-r", "1.5e3", "-s", "-r", "-q", "abc"]));
    assert_eq!(cli.get_opt("r"), Some(&OptVal::FNum("1.5e3".to_string())));
    assert_eq!(cli.get_opt("s"), Some(&OptVal::Str("-r".to_string())));
    assert_eq!(cli.get_opt("q"), Some(&OptVal::Unmatch));
}

#[test]
fn unknown_options_are_ignored_and_parse_happens_once() {
    let mut cli = tail_cli();
    cli.parse_from(&argv(&["simtail", "--n", "5", "-x", "file"]));
    assert_eq!(cli.get_opt("n"), None);
    assert_eq!(cli.args(), &argv(&["5", "file"]));
    cli.parse_from(&argv(&["simtail", "-n", "7", "again"]));
    assert_eq!(cli.get_opt("n"), None);
    assert_eq!(cli.args(), &argv(&["5", "file"]));
}

#[test]
fn options_sharing_a_name_each_take_a_value() {
    let mut cli = CLI::new();
    cli.opt("n", OptTyp::Num).opt("n", OptTyp::Str);
    cli.parse_from(&argv(&["prog", "-n", "3", "three", "rest"]));
    assert_eq!(cli.get_opt("n"), Some(&OptVal::Num(3)));
    assert_eq!(cli.args(), &argv(&["rest"]));
}

#[test]
fn program_name_is_skipped_and_empty_list_is_fine() {
    let mut cli = tail_cli();
    cli.parse_from(&Vec::new());
    assert!(cli.args().is_empty());
    let mut cli = tail_cli();
    cli.parse_from(&argv(&["-c"]));
    assert_eq!(cli.get_opt("c"), None);
}

#[test]
fn plain_arguments_are_kept_in_order() {
    let mut cli = tail_cli();
    cli.parse_from(&argv(&["prog", "b.log", "a.log", "c"]));
    assert_eq!(cli.args(), &argv(&["b.log", "a.log", "c"]));
    for name in ["n", "v", "h", "c"].iter() {
        assert_eq!(cli.get_opt(name), None);
    }
}

#[test]
fn last_occurrence_of_an_option_decides() {
    let mut cli = CLI::new();
    cli.opt("n", OptTyp::Num).opt("s", OptTyp::Str).opt("c", OptTyp::NoArg);
    cli.parse_from(&argv(&["prog", "-n", "3", "a", "-n", "5", "-s", "-c", "b", "-n"]));
    assert_eq!(cli.get_opt("n"), Some(&OptVal::Num(5)));
    assert_eq!(cli.get_opt("s"), Some(&OptVal::Str("-c".to_string())));
    assert_eq!(cli.get_opt("c"), None);
    assert_eq!(cli.args(), &argv(&["a", "b"]));
}
