use vstd::prelude::*;

use crate::text::collect_chars;

verus! {

/// A command line: the program, then its arguments.
pub struct Command {
    pub head: String,
    pub tail: Vec<String>,
}

pub struct CommandView {
    pub head: Seq<char>,
    pub tail: Seq<Seq<char>>,
}

pub open spec fn strings_view(v: Seq<String>) -> Seq<Seq<char>> {
    v.map_values(|s: String| s@)
}

impl View for Command {
    type V = CommandView;

    open spec fn view(&self) -> CommandView {
        CommandView { head: self.head@, tail: strings_view(self.tail@) }
    }
}

/// A statistic of a category: its column name, and the command whose
/// output, run in the directory, is its value.
pub struct StatSpec {
    pub name: String,
    pub command: Command,
}

pub struct StatSpecView {
    pub name: Seq<char>,
    pub command: CommandView,
}

impl View for StatSpec {
    type V = StatSpecView;

    open spec fn view(&self) -> StatSpecView {
        StatSpecView { name: self.name@, command: self.command@ }
    }
}

/// A category of directories: a directory belongs to it when `command`,
/// run in the directory, succeeds.
pub struct CategorySpec {
    pub name: String,
    pub command: Command,
    pub stats: Vec<StatSpec>,
}

pub struct CategorySpecView {
    pub name: Seq<char>,
    pub command: CommandView,
    pub stats: Seq<StatSpecView>,
}

impl View for CategorySpec {
    type V = CategorySpecView;

    open spec fn view(&self) -> CategorySpecView {
        CategorySpecView {
            name: self.name@,
            command: self.command@,
            stats: self.stats@.map_values(|s: StatSpec| s@),
        }
    }
}

/// The categories, in the order in which they are tried.
pub struct ReportSpec {
    pub categories: Vec<CategorySpec>,
}

pub struct ReportSpecView {
    pub categories: Seq<CategorySpecView>,
}

impl View for ReportSpec {
    type V = ReportSpecView;

    open spec fn view(&self) -> ReportSpecView {
        ReportSpecView { categories: self.categories@.map_values(|c: CategorySpec| c@) }
    }
}

/// A program is looked up as a path, relative to the directory of the report
/// spec, when it holds a slash and does not start with one; without a
/// slash it is looked up in `PATH`, and with a leading slash it is absolute.
pub open spec fn needs_resolution_spec(head: Seq<char>) -> bool {
    head.contains('/') && head[0] != '/'
}

/// Whether the program `head` of a command is a relative path, to be
/// resolved against the directory of the report spec.
pub fn needs_resolution(head: &str) -> (res: bool)
    ensures
        res == needs_resolution_spec(head@),
{
    let chars = collect_chars(head);
    let n = chars.len();
    let mut i: usize = 0;
    while i < n
        invariant
            i <= n,
            n == chars@.len(),
            chars@ == head@,
            forall|j: int| 0 <= j < i ==> chars@[j] != '/',
        decreases n - i,
    {
        if chars[i] == '/' {
            assert(head@.contains('/'));
            return chars[0] != '/';
        }
        i = i + 1;
    }
    false
}

/// The names of all statistics, category by category, each category's in
/// its own order.
pub open spec fn all_stat_names(categories: Seq<CategorySpecView>) -> Seq<Seq<char>>
    decreases categories.len(),
{
    if categories.len() == 0 {
        Seq::empty()
    } else {
        all_stat_names(categories.drop_last()) + categories.last().stats.map_values(
            |s: StatSpecView| s.name,
        )
    }
}

impl ReportSpec {
    /// The names of all statistics: the columns of the report after the path
    /// and the category.
    pub fn stat_names(&self) -> (names: Vec<String>)
        ensures
            strings_view(names@) == all_stat_names(self@.categories),
    {
        let mut names: Vec<String> = Vec::new();
        let n = self.categories.len();
        for i in 0..n
            invariant
                n == self.categories@.len(),
                strings_view(names@) == all_stat_names(self@.categories.take(i as int)),
        {
            let stats = &self.categories[i].stats;
            let m = stats.len();
            let ghost before = strings_view(names@);
            for k in 0..m
                invariant
                    i < n,
                    n == self.categories@.len(),
                    m == stats@.len(),
                    stats == &self.categories@[i as int].stats,
                    strings_view(names@) == before + stats@.take(k as int).map_values(
                        |s: StatSpec| s@.name,
                    ),
            {
                let ghost old_names = names@;
                names.push(stats[k].name.clone());
                assert(strings_view(names@) =~= strings_view(old_names).push(stats@[k as int]@.name));
                assert(stats@.take(k + 1).map_values(|s: StatSpec| s@.name) =~= stats@.take(
                    k as int,
                ).map_values(|s: StatSpec| s@.name).push(stats@[k as int]@.name));
                assert(strings_view(names@) =~= before + stats@.take(k + 1).map_values(
                    |s: StatSpec| s@.name,
                ));
            }
            assert(self@.categories.take(i + 1).drop_last() =~= self@.categories.take(i as int));
            assert(stats@.take(m as int).map_values(|s: StatSpec| s@.name)
                =~= self@.categories.take(i + 1).last().stats.map_values(
                |s: StatSpecView| s.name,
            ));
        }
        assert(self@.categories.take(n as int) =~= self@.categories);
        names
    }
}

/// A program is resolved against the spec's directory exactly when it holds
/// a slash somewhere and its first character is not a slash (so `../x` and
/// `bin/x` are, `/usr/bin/x` and `git` are not).
pub proof fn lemma_resolution_rule(head: Seq<char>)
    ensures
        (exists|i: int| 0 <= i < head.len() && head[i] == '/') && head[0] != '/'
            ==> needs_resolution_spec(head),
        head.len() > 0 && head[0] == '/' ==> !needs_resolution_spec(head),
        (forall|i: int| 0 <= i < head.len() ==> head[i] != '/') ==> !needs_resolution_spec(head),
{
    if head.len() > 0 && head[0] == '/' {
        assert(!needs_resolution_spec(head));
    }
}

} // verus!
