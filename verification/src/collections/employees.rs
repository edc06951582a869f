//! A directory of employees by department, driven by commands such as
//! "Add Sally to Engineering" and "List Engineering".

use crate::text::{
    ascii_lower, ascii_lowered, join, joined, sorted_copy, sorted_strings, split_whitespace,
    str_eq, strings_view, words,
};
use vstd::prelude::*;
use vstd::slice::slice_subrange;
use vstd::string::StringExecFns;

verus! {

/// The employees of a company by department. No department occurs twice;
/// the departments stand in the order in which each got its first employee.
pub struct Company {
    employees_by_dep: Vec<(String, Vec<String>)>,
}

/// Departments as plain values: for each its name and its employees.
pub type Departments = Seq<(Seq<char>, Seq<Seq<char>>)>;

/// The first place at or after `from` of the department `dep`, or the
/// number of departments where there is none.
pub open spec fn dep_index(deps: Departments, dep: Seq<char>, from: int) -> int
    decreases deps.len() - from,
{
    if 0 <= from < deps.len() && deps[from].0 != dep {
        dep_index(deps, dep, from + 1)
    } else {
        from
    }
}

/// The departments after `name` joined the department `dep`.
pub open spec fn with_employee(
    deps: Departments,
    dep: Seq<char>,
    name: Seq<char>,
) -> Departments {
    let i = dep_index(deps, dep, 0);
    if 0 <= i < deps.len() {
        deps.update(i, (dep, deps[i].1.push(name)))
    } else {
        deps.push((dep, seq![name]))
    }
}

/// Whether a word is "to", in whatever case.
pub open spec fn is_to(word: Seq<char>) -> bool {
    ascii_lower(word) == "to"@
}

/// The first place at or after `from` of a word that is "to", or the number
/// of words where there is none.
pub open spec fn to_index(words: Seq<Seq<char>>, from: int) -> int
    decreases words.len() - from,
{
    if 0 <= from < words.len() && !is_to(words[from]) {
        to_index(words, from + 1)
    } else {
        from
    }
}

/// The words that are not "to", in order.
pub open spec fn without_to(words: Seq<Seq<char>>) -> Seq<Seq<char>>
    decreases words.len(),
{
    if words.len() == 0 {
        words
    } else if is_to(words.last()) {
        without_to(words.drop_last())
    } else {
        without_to(words.drop_last()).push(words.last())
    }
}

/// The name that the words of an "add" command give: the words before the
/// first "to", with one space between them.
pub open spec fn added_name(words: Seq<Seq<char>>) -> Seq<char> {
    joined(words.take(to_index(words, 0)), seq![' '])
}

/// The department that the words of an "add" command give: the words
/// behind the first "to" that are not "to" themselves, with one space
/// between them.
pub open spec fn added_department(words: Seq<Seq<char>>) -> Seq<char> {
    let t = to_index(words, 0);
    if t < words.len() {
        joined(without_to(words.skip(t + 1)), seq![' '])
    } else {
        Seq::empty()
    }
}

/// One line for each employee of each department: the employee, " of " and
/// the department.
pub open spec fn employee_lines(deps: Departments) -> Seq<Seq<char>>
    decreases deps.len(),
{
    if deps.len() == 0 {
        Seq::empty()
    } else {
        employee_lines(deps.drop_last()) + Seq::new(
            deps.last().1.len(),
            |k: int| deps.last().1[k] + " of "@ + deps.last().0,
        )
    }
}

/// Whether `lines` holds the strings of `items` in rising order.
pub open spec fn sorted_lines_of(lines: Seq<Seq<char>>, items: Seq<Seq<char>>) -> bool {
    sorted_strings(lines) && lines.to_multiset() == items.to_multiset()
}

/// Whether `lines` is the answer to an "add" command with the given words:
/// a complaint where the name or the department is missing or the
/// department is "all", else nothing.
pub open spec fn add_answer(words: Seq<Seq<char>>, lines: Seq<Seq<char>>) -> bool {
    if added_name(words).len() == 0 || added_department(words).len() == 0 {
        lines == seq![
            "Incorrect command usage! Please follow the pattern of: Add Sally to Engineering"@,
        ]
    } else if ascii_lower(added_department(words)) == "all"@ {
        lines == seq!["'All' is not a valid department"@]
    } else {
        lines.len() == 0
    }
}

/// The departments after an "add" command with the given words.
pub open spec fn add_effect(
    deps: Departments,
    words: Seq<Seq<char>>,
) -> Departments {
    if added_name(words).len() == 0 || added_department(words).len() == 0 || ascii_lower(
        added_department(words),
    ) == "all"@ {
        deps
    } else {
        with_employee(deps, added_department(words), added_name(words))
    }
}

/// Whether `lines` is the answer to a "list" command with the given words,
/// which name a department or say "all": a heading and the employees in
/// rising order, or word that the department has none.
pub open spec fn list_answer(
    deps: Departments,
    words: Seq<Seq<char>>,
    lines: Seq<Seq<char>>,
) -> bool {
    let dep = joined(words, seq![' ']);
    let i = dep_index(deps, dep, 0);
    if ascii_lower(dep) == "all"@ {
        lines.len() > 0 && lines[0] == "All employees:"@ && sorted_lines_of(
            lines.skip(1),
            employee_lines(deps),
        )
    } else if 0 <= i < deps.len() {
        lines.len() > 0 && lines[0] == "Employees in the "@ + dep + " department:"@
            && sorted_lines_of(lines.skip(1), deps[i].1)
    } else {
        lines == seq!["There are no employees in the "@ + dep + " department"@]
    }
}

/// Whether `lines` is the answer to a command and `after` the departments
/// that it leaves. The first word, in whatever case, says what to do with
/// the others.
pub open spec fn command_answer(
    before: Departments,
    command: Seq<char>,
    after: Departments,
    lines: Seq<Seq<char>>,
) -> bool {
    let words = split_whitespace(command);
    if words.len() == 0 {
        after == before && lines == seq!["Please type a command!"@]
    } else if ascii_lower(words[0]) == "add"@ {
        after == add_effect(before, words.skip(1)) && add_answer(words.skip(1), lines)
    } else if ascii_lower(words[0]) == "list"@ {
        after == before && list_answer(before, words.skip(1), lines)
    } else {
        after == before && lines == seq![ascii_lower(words[0]) + " is not a valid command!"@]
    }
}

impl View for Company {
    type V = Departments;

    closed spec fn view(&self) -> Departments {
        Seq::new(
            self.employees_by_dep@.len(),
            |i: int| (self.employees_by_dep@[i].0@, strings_view(self.employees_by_dep@[i].1@)),
        )
    }
}

/// Whether no department occurs twice.
pub open spec fn distinct_departments(deps: Departments) -> bool {
    forall|i: int, j: int|
        0 <= i < j < deps.len() ==> (#[trigger] deps[i]).0 != (#[trigger] deps[j]).0
}

/// Where the scan for a department stops.
pub proof fn lemma_dep_index(deps: Departments, dep: Seq<char>, from: int)
    requires
        0 <= from <= deps.len(),
    ensures
        from <= dep_index(deps, dep, from) <= deps.len(),
        forall|k: int| from <= k < dep_index(deps, dep, from) ==> (#[trigger] deps[k]).0 != dep,
        dep_index(deps, dep, from) < deps.len() ==> deps[dep_index(deps, dep, from)].0 == dep,
    decreases deps.len() - from,
{
    if from < deps.len() && deps[from].0 != dep {
        lemma_dep_index(deps, dep, from + 1);
    }
}

/// A new employee leaves no department twice.
pub proof fn lemma_with_employee_distinct(
    deps: Departments,
    dep: Seq<char>,
    name: Seq<char>,
)
    requires
        distinct_departments(deps),
    ensures
        distinct_departments(with_employee(deps, dep, name)),
{
    lemma_dep_index(deps, dep, 0);
    let after = with_employee(deps, dep, name);
    assert forall|i: int, j: int| 0 <= i < j < after.len() implies (#[trigger] after[i]).0 != (
    #[trigger] after[j]).0 by {
        if i < deps.len() {
            assert(after[i].0 == deps[i].0);
        }
        if j < deps.len() {
            assert(after[j].0 == deps[j].0);
        }
    }
}

impl Company {
    /// The invariant of a company: no department occurs twice.
    pub closed spec fn wf(&self) -> bool {
        distinct_departments(self@)
    }

    pub fn new() -> (c: Company)
        ensures
            c.wf(),
            c@.len() == 0,
    {
        Company { employees_by_dep: Vec::new() }
    }

    /// Carries out a command and returns the lines of the answer.
    pub fn execute_command(&mut self, command: &str) -> (lines: Vec<String>)
        requires
            old(self).wf(),
        ensures
            final(self).wf(),
            command_answer(old(self)@, command@, final(self)@, strings_view(lines@)),
    {
        let all = words(command);
        if all.len() == 0 {
            let mut lines: Vec<String> = Vec::new();
            lines.push("Please type a command!".to_owned());
            proof {
                assert(strings_view(lines@) =~= seq!["Please type a command!"@]);
            }
            return lines;
        }
        let verb = ascii_lowered(all[0].as_str());
        let rest = slice_subrange(all.as_slice(), 1, all.len());
        proof {
            assert(strings_view(rest@) =~= strings_view(all@).skip(1));
            assert(all@[0]@ == strings_view(all@)[0]);
        }
        if str_eq(verb.as_str(), "add") {
            self.add_employee(rest)
        } else if str_eq(verb.as_str(), "list") {
            self.list_employee(rest)
        } else {
            let mut line = verb;
            line.append(" is not a valid command!");
            let mut lines: Vec<String> = Vec::new();
            let ghost text = line@;
            lines.push(line);
            proof {
                assert(strings_view(lines@) =~= seq![text]);
            }
            lines
        }
    }

    /// Adds the employee that the words name to the department that they name.
    pub fn add_employee(&mut self, command: &[String]) -> (lines: Vec<String>)
        requires
            old(self).wf(),
        ensures
            final(self).wf(),
            final(self)@ == add_effect(old(self)@, strings_view(command@)),
            add_answer(strings_view(command@), strings_view(lines@)),
    {
        let mut name: Vec<String> = Vec::new();
        let mut dep: Vec<String> = Vec::new();
        let mut found_to = false;
        let ghost all = strings_view(command@);
        let ghost t = to_index(all, 0);
        let mut i: usize = 0;
        proof {
            assert(strings_view(name@) =~= all.take(0));
            assert(strings_view(dep@) =~= Seq::<Seq<char>>::empty());
            lemma_to_index(all, 0);
        }
        while i < command.len()
            invariant
                i <= command@.len(),
                all == strings_view(command@),
                t == to_index(all, 0),
                0 <= t <= all.len(),
                forall|k: int| 0 <= k < t ==> !is_to(#[trigger] all[k]),
                t < all.len() ==> is_to(all[t]),
                found_to == (t < i),
                !found_to ==> strings_view(name@) == all.take(i as int) && dep@.len() == 0,
                found_to ==> strings_view(name@) == all.take(t) && strings_view(dep@)
                    == without_to(all.subrange(t + 1, i as int)),
            decreases command@.len() - i,
        {
            let word = &command[i];
            proof {
                assert(word@ == all[i as int]);
                if t < i {
                    assert(all.subrange(t + 1, i + 1).drop_last() =~= all.subrange(
                        t + 1,
                        i as int,
                    ));
                }
                if t == i {
                    assert(all.subrange(t + 1, i + 1) =~= Seq::<Seq<char>>::empty());
                }
            }
            if str_eq(ascii_lowered(word.as_str()).as_str(), "to") {
                found_to = true;
            } else if found_to {
                let ghost before = strings_view(dep@);
                dep.push(word.clone());
                proof {
                    assert(strings_view(dep@) =~= before.push(word@));
                }
            } else {
                let ghost before = strings_view(name@);
                name.push(word.clone());
                proof {
                    assert(strings_view(name@) =~= before.push(word@));
                    assert(all.take(i + 1) =~= all.take(i as int).push(word@));
                }
            }
            i += 1;
        }
        proof {
            reveal_strlit(" ");
            assert(" "@ =~= seq![' ']);
            if t < all.len() {
                assert(all.subrange(t + 1, i as int) =~= all.skip(t + 1));
            } else {
                assert(all.take(i as int) =~= all.take(t));
                assert(joined(strings_view(dep@), seq![' ']).len() == 0);
            }
        }
        let name = join(&name, " ");
        let dep = join(&dep, " ");
        let mut lines: Vec<String> = Vec::new();
        if name.as_str().is_empty() || dep.as_str().is_empty() {
            lines.push(
                "Incorrect command usage! Please follow the pattern of: Add Sally to Engineering".to_owned(),
            );
            proof {
                assert(strings_view(lines@) =~= seq![
                    "Incorrect command usage! Please follow the pattern of: Add Sally to Engineering"@,
                ]);
            }
            return lines;
        }
        if str_eq(ascii_lowered(dep.as_str()).as_str(), "all") {
            lines.push("'All' is not a valid department".to_owned());
            proof {
                assert(strings_view(lines@) =~= seq!["'All' is not a valid department"@]);
            }
            return lines;
        }
        self.add_to_department(dep, name);
        lines
    }

    /// Adds an employee to a department, which is new where it had none.
    pub fn add_to_department(&mut self, dep: String, name: String)
        requires
            old(self).wf(),
        ensures
            final(self).wf(),
            final(self)@ == with_employee(old(self)@, dep@, name@),
    {
        let ghost before = self@;
        proof {
            lemma_with_employee_distinct(before, dep@, name@);
            lemma_dep_index(before, dep@, 0);
        }
        let i = self.find_department(dep.as_str());
        if i < self.employees_by_dep.len() {
            let (department, mut employees) = self.employees_by_dep.remove(i);
            let ghost old_employees = strings_view(employees@);
            employees.push(name);
            proof {
                assert(strings_view(employees@) =~= old_employees.push(name@));
            }
            self.employees_by_dep.insert(i, (department, employees));
            proof {
                assert(self@ =~= with_employee(before, dep@, name@));
            }
        } else {
            let mut employees: Vec<String> = Vec::new();
            employees.push(name);
            proof {
                assert(strings_view(employees@) =~= seq![name@]);
            }
            self.employees_by_dep.push((dep, employees));
            proof {
                assert(self@ =~= with_employee(before, dep@, name@));
            }
        }
    }

    /// The place of a department, or the number of departments where the
    /// company has none of that name.
    pub fn find_department(&self, dep: &str) -> (i: usize)
        ensures
            i == dep_index(self@, dep@, 0),
            i <= self@.len(),
    {
        let mut i: usize = 0;
        while i < self.employees_by_dep.len() && !str_eq(self.employees_by_dep[i].0.as_str(), dep)
            invariant
                i <= self@.len(),
                self@.len() == self.employees_by_dep@.len(),
                dep_index(self@, dep@, 0) == dep_index(self@, dep@, i as int),
            decreases self@.len() - i,
        {
            proof {
                assert(self@[i as int].0 == self.employees_by_dep@[i as int].0@);
            }
            i += 1;
        }
        proof {
            if i < self@.len() {
                assert(self@[i as int].0 == self.employees_by_dep@[i as int].0@);
            }
        }
        i
    }

    /// Lists the employees of the department that the words name, or of all.
    pub fn list_employee(&self, command: &[String]) -> (lines: Vec<String>)
        ensures
            list_answer(self@, strings_view(command@), strings_view(lines@)),
    {
        proof {
            reveal_strlit(" ");
            assert(" "@ =~= seq![' ']);
        }
        let mut words: Vec<String> = Vec::new();
        let mut k: usize = 0;
        while k < command.len()
            invariant
                k <= command@.len(),
                strings_view(words@) == strings_view(command@).take(k as int),
            decreases command@.len() - k,
        {
            let ghost before = strings_view(words@);
            words.push(command[k].clone());
            k += 1;
            proof {
                assert(strings_view(words@) =~= before.push(command@[k - 1]@));
                assert(strings_view(command@).take(k as int) =~= strings_view(command@).take(
                    k - 1,
                ).push(command@[k - 1]@));
            }
        }
        proof {
            assert(strings_view(command@).take(k as int) =~= strings_view(command@));
        }
        let dep = join(&words, " ");
        let mut lines: Vec<String> = Vec::new();
        if str_eq(ascii_lowered(dep.as_str()).as_str(), "all") {
            lines.push("All employees:".to_owned());
            let all = self.get_all_employees();
            append_lines(&mut lines, &all);
            proof {
                assert(strings_view(lines@).skip(1) =~= strings_view(all@));
            }
            return lines;
        }
        let i = self.find_department(dep.as_str());
        if i < self.employees_by_dep.len() {
            let mut heading = "Employees in the ".to_owned();
            heading.append(dep.as_str());
            heading.append(" department:");
            lines.push(heading);
            let employees = sorted_copy(&self.employees_by_dep[i].1);
            append_lines(&mut lines, &employees);
            proof {
                assert(strings_view(lines@).skip(1) =~= strings_view(employees@));
                assert(self@[i as int].1 == strings_view(self.employees_by_dep@[i as int].1@));
            }
        } else {
            let mut line = "There are no employees in the ".to_owned();
            line.append(dep.as_str());
            line.append(" department");
            let ghost text = line@;
            lines.push(line);
            proof {
                assert(strings_view(lines@) =~= seq![text]);
            }
        }
        lines
    }

    /// One line for each employee, "name of department", in rising order.
    pub fn get_all_employees(&self) -> (all: Vec<String>)
        ensures
            sorted_lines_of(strings_view(all@), employee_lines(self@)),
    {
        let mut all_employees: Vec<String> = Vec::new();
        let ghost deps = self@;
        let mut i: usize = 0;
        proof {
            assert(deps.take(0) =~= Seq::<(Seq<char>, Seq<Seq<char>>)>::empty());
            assert(strings_view(all_employees@) =~= employee_lines(deps.take(0)));
        }
        while i < self.employees_by_dep.len()
            invariant
                i <= self.employees_by_dep@.len(),
                deps == self@,
                strings_view(all_employees@) == employee_lines(deps.take(i as int)),
            decreases self.employees_by_dep@.len() - i,
        {
            let dep = &self.employees_by_dep[i].0;
            let employees = &self.employees_by_dep[i].1;
            let ghost head = strings_view(all_employees@);
            let ghost these = Seq::new(
                employees@.len(),
                |k: int| employees@[k]@ + " of "@ + dep@,
            );
            let mut k: usize = 0;
            while k < employees.len()
                invariant
                    k <= employees@.len(),
                    these == Seq::new(employees@.len(), |k: int| employees@[k]@ + " of "@ + dep@),
                    strings_view(all_employees@) == head + these.take(k as int),
                decreases employees@.len() - k,
            {
                let mut line = employees[k].clone();
                line.append(" of ");
                line.append(dep.as_str());
                let ghost text = line@;
                let ghost before = strings_view(all_employees@);
                all_employees.push(line);
                k += 1;
                proof {
                    assert(strings_view(all_employees@) =~= before.push(text));
                    assert(these.take(k as int) =~= these.take(k - 1).push(text));
                }
            }
            i += 1;
            proof {
                assert(these.take(k as int) =~= these);
                assert(deps.take(i as int).drop_last() =~= deps.take(i - 1));
                let last = deps.take(i as int).last();
                assert(last == deps[i - 1]);
                assert(these =~= Seq::new(last.1.len(), |k: int| last.1[k] + " of "@ + last.0));
            }
        }
        proof {
            assert(deps.take(i as int) =~= deps);
        }
        sorted_copy(&all_employees)
    }
}

/// Where the scan for "to" stops.
pub proof fn lemma_to_index(words: Seq<Seq<char>>, from: int)
    requires
        0 <= from <= words.len(),
    ensures
        from <= to_index(words, from) <= words.len(),
        forall|k: int| from <= k < to_index(words, from) ==> !is_to(#[trigger] words[k]),
        to_index(words, from) < words.len() ==> is_to(words[to_index(words, from)]),
    decreases words.len() - from,
{
    if from < words.len() && !is_to(words[from]) {
        lemma_to_index(words, from + 1);
    }
}

/// Appends copies of `more` to `lines`.
pub fn append_lines(lines: &mut Vec<String>, more: &Vec<String>)
    ensures
        strings_view(final(lines)@) == strings_view(old(lines)@) + strings_view(more@),
{
    let ghost start = strings_view(lines@);
    let mut i: usize = 0;
    while i < more.len()
        invariant
            i <= more@.len(),
            strings_view(lines@) == start + strings_view(more@).take(i as int),
        decreases more@.len() - i,
    {
        let ghost before = strings_view(lines@);
        lines.push(more[i].clone());
        i += 1;
        proof {
            assert(strings_view(lines@) =~= before.push(more@[i - 1]@));
            assert(strings_view(lines@) =~= start + strings_view(more@).take(i as int));
        }
    }
    proof {
        assert(strings_view(more@).take(i as int) =~= strings_view(more@));
    }
}

} // verus!
