use rust_server::minigrep::{search, seach_closure, Arg, Config, Flag, MyErr};

fn mock_config<'a>(query: &'a str) -> Config<'a> {
    let empty: &'static str = "";

    Config {
        query,
        file_path: empty,
        ignore_case: false,
        line_numbers: false,
        context: (0, 0),
    }
}

fn args(words: &[&str]) -> Vec<String> {
    words.iter().map(|w| w.to_string()).collect()
}

#[test]
fn one_result() {
    let query = "duct";
    let contents = "\
Rust:
safe, fast, productive.
Pick three.
Duct tape.";

    let config = mock_config(query);

    assert_eq!(vec!["safe, fast, productive."], search(contents, &config));
}

#[test]
fn case_insensitive() {
    let query = "rUsT";
    let contents = "\
Rust:
safe, fast, productive.
Pick three.
Trust me.";

    let mut config = mock_config(query);
    config.ignore_case = true;

    assert_eq!(vec!["Rust:", "Trust me."], search(contents, &config));
}

#[test]
fn context() {
    let query = "fast";
    let contents = "\
Rust:
safe, fast, productive.
Pick three.
Trust me.";

    let mut config = mock_config(query);

    config.context = (1, 1);
    assert_eq!(vec!["Rust:", "safe, fast, productive.", "Pick three."], search(contents, &config));

    config.context = (10, 0);
    assert_eq!(vec!["Rust:", "safe, fast, productive."], search(contents, &config));

    config.context = (0, 10);
    assert_eq!(vec!["safe, fast, productive.", "Pick three.", "Trust me."], search(contents, &config));
}

#[test]
fn line_number() {
    let query = "I am";
    let contents = "\
I am who I am
Too bad I'm not
who I need to be";

    let mut config = mock_config(query);
    config.line_numbers = true;
    assert_eq!(vec!["1: I am who I am"], search(contents, &config));
}

#[test]
fn overlapping_contexts_show_each_line_once() {
    let contents = "a\nx1\nb\nx2\r\nc\nd\n";
    let mut config = mock_config("x");
    config.context = (1, 1);
    config.line_numbers = true;
    assert_eq!(
        vec!["1: a", "2: x1", "3: b", "4: x2", "5: c"],
        search(contents, &config)
    );
}

#[test]
fn empty_text_and_empty_query() {
    let config = mock_config("");
    assert_eq!(Vec::<String>::new(), search("", &config));
    assert_eq!(vec!["a", "", "b"], search("a\n\nb\n", &config));
}

#[test]
fn closures_decide_and_print() {
    let result = seach_closure(
        "unused",
        "zero\none\ntwo\nthree",
        |_, _, i| i % 2 == 1,
        |line, i| format!("{}={}", i, line),
        (0, 0),
    );
    assert_eq!(vec!["1=one", "3=three"], result);
}

#[test]
fn build_reads_flags_and_arguments() {
    let words = args(&["prog", "-i", "needle", "-c", "3", "-b", "1", "file.txt", "-n"]);
    let config = Config::build(&words, false).unwrap();
    assert_eq!("needle", config.query);
    assert_eq!("file.txt", config.file_path);
    assert!(config.ignore_case);
    assert!(config.line_numbers);
    assert_eq!((1, 3), config.context);

    let words = args(&["prog", "-a", "2", "q", "p"]);
    let config = Config::build(&words, true).unwrap();
    assert!(config.ignore_case);
    assert!(!config.line_numbers);
    assert_eq!((0, 2), config.context);
}

#[test]
fn build_reports_errors() {
    let message = |words: &[&str]| Config::build(&args(words), false).unwrap_err().message;
    assert_eq!(
        "Incorrect program usage! Please supply two arguments: a query and a path and optional flags preceded by -",
        message(&["prog", "q"])
    );
    assert_eq!(
        "Too many arguments! Please suply the query and a path.",
        message(&["prog", "q", "p", "r"])
    );
    assert_eq!("Please supply two non flag arguments!", message(&["prog", "q", "-i"]));
    assert_eq!("Flag -x doesnt exist", message(&["prog", "-x", "q", "p"]));
    assert_eq!(
        "Please provide a number argument for the -a flag",
        message(&["prog", "q", "p", "-a"])
    );
    assert_eq!("Invalid number: p", message(&["prog", "q", "-b", "p"]));
}

#[test]
fn flags_are_a_hyphen_and_one_ascii_character() {
    let words = args(&["prog", "-\u{e9}", "--"]);
    let message = Config::build(&words, false).unwrap_err().message;
    assert_eq!("Flag -- doesnt exist", message);
    let mut next = Arg::new("7");
    let flag = Flag::parse(&Arg::new("-c"), Some(&mut next)).unwrap();
    assert_eq!(Some(Flag::Context(7)), flag);
    assert!(next.consumed);
    assert_eq!(None, Flag::parse(&Arg::new("plain"), None).unwrap());
    assert_eq!("boom", MyErr::boxed("boom").message);
}
