use rust_server::collections::employees::Company;
use rust_server::collections::pig_latin::{is_vowel, pigfy, pigfy_parts, pigfy_word};

#[test]
fn pigfy_words() {
    assert_eq!("apple-hay", pigfy_word("apple"));
    assert_eq!("irst-fay", pigfy_word("first"));
    assert_eq!("end-hay", pigfy_word("end"));
    assert_eq!("ecord-Ray", pigfy_word("Record"))
}

#[test]
fn pigfy_frases() {
    assert_eq!("o-Tay e-bay or-hay ot-nay o-tay e-bay, hat-tay is-hay he-tay uestion-qay", pigfy("To be or not to be, that is the question"))
}

#[test]
fn pigfy_keeps_what_stands_around_the_letters() {
    assert_eq!("\"ello-hay!\"", pigfy_word("\"hello!\""));
    assert_eq!("42nd-say", pigfy_word("42snd"));
    assert_eq!("pple-Aay", pigfy_word("Apple"));
    assert_eq!("-xay", pigfy_word("x"));
    assert_eq!("\u{e9}-tay\u{e9}", pigfy_word("\u{e9}t\u{e9}"));
    assert_eq!("on-day't", pigfy_word("don't"));
}

#[test]
fn pigfy_word_stops_at_a_line_feed() {
    assert_eq!("-xay", pigfy_word("x\ny"));
    assert_eq!("\n\ni-hay", pigfy_word("\n\nhi"));
    assert_eq!("ab-hay\r", pigfy_word("ab\r\ncd"));
    assert_eq!("a-bay\r", pigfy_word("ba\r\ncd"));
    assert_eq!("ab-hay", pigfy_word("ab"));
}

#[test]
fn pigfy_of_nothing_is_nothing() {
    assert_eq!("", pigfy(""));
    assert_eq!("", pigfy(" \t\n"));
    assert_eq!("i-hay here-tay", pigfy("  hi\u{a0}\u{3000}there \n"));
}

#[test]
fn pigfy_parts_puts_the_parts_together() {
    assert_eq!("<ig-pay>", pigfy_parts("<", "pig", ">"));
    assert_eq!("<>", pigfy_parts("<", "", ">"));
    assert_eq!("egg-hay", pigfy_parts("", "egg", ""));
    assert!(is_vowel('a') && is_vowel('u') && !is_vowel('A') && !is_vowel('y'));
}

#[test]
fn company_adds_and_lists() {
    let mut company = Company::new();
    assert_eq!(Vec::<String>::new(), company.execute_command("Add Sally to Engineering"));
    assert_eq!(Vec::<String>::new(), company.execute_command("add Amir to Sales"));
    assert_eq!(Vec::<String>::new(), company.execute_command("ADD Bob Ross TO Engineering"));
    assert_eq!(
        vec!["Employees in the Engineering department:", "Bob Ross", "Sally"],
        company.execute_command("list Engineering")
    );
    assert_eq!(
        vec![
            "All employees:",
            "Amir of Sales",
            "Bob Ross of Engineering",
            "Sally of Engineering"
        ],
        company.execute_command("List ALL")
    );
    assert_eq!(
        vec!["There are no employees in the Marketing department"],
        company.execute_command("list Marketing")
    );
    assert_eq!(
        vec!["Amir of Sales", "Bob Ross of Engineering", "Sally of Engineering"],
        company.get_all_employees()
    );
}

#[test]
fn company_complains() {
    let mut company = Company::new();
    assert_eq!(vec!["Please type a command!"], company.execute_command("  \n"));
    assert_eq!(vec!["fire is not a valid command!"], company.execute_command("FIRE Sally"));
    let usage = "Incorrect command usage! Please follow the pattern of: Add Sally to Engineering";
    assert_eq!(vec![usage], company.execute_command("add Sally"));
    assert_eq!(vec![usage], company.execute_command("add to Sales"));
    assert_eq!(vec![usage], company.execute_command("add Sally to"));
    assert_eq!(vec![usage], company.execute_command("add Sally to to"));
    assert_eq!(
        vec!["'All' is not a valid department"],
        company.execute_command("add Sally to aLL")
    );
    assert_eq!(vec!["All employees:"], company.execute_command("list all"));
    assert_eq!(
        vec!["There are no employees in the  department"],
        company.execute_command("list")
    );
}

#[test]
fn company_drops_every_further_to() {
    let mut company = Company::new();
    company.execute_command("add Ann to Research to and TO Development");
    assert_eq!(
        vec!["Employees in the Research and Development department:", "Ann"],
        company.execute_command("list Research and Development")
    );
    company.execute_command("add Zed to Research and Development");
    company.execute_command("add \u{c9}mile to Research and Development");
    company.execute_command("add Ann to Research and Development");
    assert_eq!(
        vec![
            "Employees in the Research and Development department:",
            "Ann",
            "Ann",
            "Zed",
            "\u{c9}mile"
        ],
        company.execute_command("list Research and Development")
    );
}
