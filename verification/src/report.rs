use vstd::prelude::*;
use vstd::string::StringExecFns;

use crate::config::{all_stat_names, strings_view, ReportSpec, ReportSpecView};
use crate::csv_format::{csv_document, csv_encode_row, row_fields};
use crate::csv_read::{lemma_document_reads_back, read_document};
use vstd::utf8::{decode_utf8, encode_utf8_decode_utf8};
use crate::text::{trim_spec, trim_white_space};
use crate::walk::{categories_in_range, initial_spec, Entry, EntryView, MessageView, WalkMessage, Walker};

verus! {

/// A root to walk, as the file system showed it.
pub struct RootStatus {
    pub path: String,
    pub exists: bool,
    pub is_dir: bool,
}

pub struct RootStatusView {
    pub path: Seq<char>,
    pub exists: bool,
    pub is_dir: bool,
}

impl View for RootStatus {
    type V = RootStatusView;

    open spec fn view(&self) -> RootStatusView {
        RootStatusView { path: self.path@, exists: self.exists, is_dir: self.is_dir }
    }
}

pub open spec fn roots_view(roots: Seq<RootStatus>) -> Seq<RootStatusView> {
    roots.map_values(|r: RootStatus| r@)
}

/// Why a walk cannot start.
pub enum WalkError {
    /// No root was given.
    NoRoots,
    /// These roots do not exist or are not directories, in the order given.
    BadRoots(Vec<String>),
}

/// What `format!("{:?}", ..)` renders of a list of paths (`Vec<PathBuf>`):
/// `[` and `]` around the paths, each quoted and escaped, separated by `, `.
pub uninterp spec fn debug_path_list(paths: Seq<Seq<char>>) -> Seq<char>;

/// Renders `paths`, taken as `PathBuf`s, with `format!("{:?}", ..)`, the
/// `Debug` implementation of `Vec<PathBuf>` in std. The contract only names
/// the result (`debug_path_list` of the paths): how each path is escaped is
/// left to std.
#[verifier::external_body]
fn debug_path_strings(paths: &Vec<String>) -> (res: String)
    ensures
        res@ == debug_path_list(paths.deep_view()),
{
    let paths: Vec<std::path::PathBuf> = paths.iter().map(std::path::PathBuf::from).collect();
    format!("{:?}", paths)
}

impl WalkError {
    /// The message that reports the error.
    pub fn message(&self) -> (res: String)
        ensures
            match self {
                WalkError::NoRoots => res@ == "Must specify at least one root to process"@,
                WalkError::BadRoots(bad) => res@ == "Roots must exist and be directories. These are not: "@
                    + debug_path_list(bad.deep_view()),
            },
    {
        match self {
            WalkError::NoRoots => String::from_str("Must specify at least one root to process"),
            WalkError::BadRoots(bad) => {
                let list = debug_path_strings(bad);
                String::from_str("Roots must exist and be directories. These are not: ").concat(
                    list.as_str(),
                )
            },
        }
    }
}

pub open spec fn is_bad_root(root: RootStatusView) -> bool {
    !(root.exists && root.is_dir)
}

/// The paths of the roots that do not exist or are not directories, in order.
pub open spec fn bad_roots_spec(roots: Seq<RootStatusView>) -> Seq<Seq<char>>
    decreases roots.len(),
{
    if roots.len() == 0 {
        Seq::empty()
    } else if is_bad_root(roots.last()) {
        bad_roots_spec(roots.drop_last()).push(roots.last().path)
    } else {
        bad_roots_spec(roots.drop_last())
    }
}

pub open spec fn root_entries(roots: Seq<RootStatusView>) -> Seq<EntryView> {
    roots.map_values(|r: RootStatusView| EntryView { path: r.path, is_dir: r.is_dir })
}

/// One value of a statistic.
pub struct StatValue {
    pub name: String,
    pub value: String,
}

pub struct StatValueView {
    pub name: Seq<char>,
    pub value: Seq<char>,
}

impl View for StatValue {
    type V = StatValueView;

    open spec fn view(&self) -> StatValueView {
        StatValueView { name: self.name@, value: self.value@ }
    }
}

/// One line of the report: a path, its category, and its statistics.
pub struct ReportItem {
    pub path: String,
    pub category: String,
    pub stats: Vec<StatValue>,
}

pub struct ReportItemView {
    pub path: Seq<char>,
    pub category: Seq<char>,
    pub stats: Seq<StatValueView>,
}

impl View for ReportItem {
    type V = ReportItemView;

    open spec fn view(&self) -> ReportItemView {
        ReportItemView {
            path: self.path@,
            category: self.category@,
            stats: self.stats@.map_values(|s: StatValue| s@),
        }
    }
}

pub open spec fn items_view(items: Seq<ReportItem>) -> Seq<ReportItemView> {
    items.map_values(|i: ReportItem| i@)
}

/// The result of a run: the statistic columns, and one item per reported path.
pub struct Report {
    stat_names: Vec<String>,
    items: Vec<ReportItem>,
}

pub struct ReportView {
    pub stat_names: Seq<Seq<char>>,
    pub items: Seq<ReportItemView>,
}

impl View for Report {
    type V = ReportView;

    closed spec fn view(&self) -> ReportView {
        ReportView { stat_names: strings_view(self.stat_names@), items: items_view(self.items@) }
    }
}

/// The value that the statistics of an item give for `name`: the last one
/// of that name.
pub open spec fn stat_lookup(stats: Seq<StatValueView>, name: Seq<char>) -> Option<Seq<char>>
    decreases stats.len(),
{
    if stats.len() == 0 {
        None
    } else if stats.last().name == name {
        Some(stats.last().value)
    } else {
        stat_lookup(stats.drop_last(), name)
    }
}

/// The cell of an item in the column `name`: its value, or empty.
pub open spec fn cell_spec(stats: Seq<StatValueView>, name: Seq<char>) -> Seq<char> {
    match stat_lookup(stats, name) {
        Some(v) => v,
        None => Seq::empty(),
    }
}

pub open spec fn header_spec(stat_names: Seq<Seq<char>>) -> Seq<Seq<char>> {
    seq!["path"@, "category"@] + stat_names
}

pub open spec fn row_spec(stat_names: Seq<Seq<char>>, item: ReportItemView) -> Seq<Seq<char>> {
    seq![item.path, item.category] + stat_names.map_values(
        |name: Seq<char>| cell_spec(item.stats, name),
    )
}

/// The table of a report: the header, then one row per item.
pub open spec fn table_spec(report: ReportView) -> Seq<Seq<Seq<char>>> {
    seq![header_spec(report.stat_names)] + report.items.map_values(
        |item: ReportItemView| row_spec(report.stat_names, item),
    )
}

pub open spec fn rows_view(rows: Seq<Vec<String>>) -> Seq<Seq<Seq<char>>> {
    rows.map_values(|r: Vec<String>| strings_view(r@))
}

/// Writing the CSV encoding of a report failed.
pub struct CsvWriteError;

fn stat_cell(stats: &Vec<StatValue>, name: &String) -> (cell: String)
    ensures
        cell@ == cell_spec(stats@.map_values(|s: StatValue| s@), name@),
{
    let ghost all = stats@.map_values(|s: StatValue| s@);
    let mut i = stats.len();
    assert(all.take(i as int) =~= all);
    while i > 0
        invariant
            i <= stats@.len(),
            all == stats@.map_values(|s: StatValue| s@),
            stat_lookup(all, name@) == stat_lookup(all.take(i as int), name@),
        decreases i,
    {
        assert(all.take(i as int).last() == all[i - 1]);
        assert(all.take(i as int).drop_last() =~= all.take(i - 1));
        if stats[i - 1].name == *name {
            return stats[i - 1].value.clone();
        }
        i = i - 1;
    }
    String::new()
}

impl Report {
    /// The names of the statistic columns.
    pub fn stat_names(&self) -> (res: &Vec<String>)
        ensures
            strings_view(res@) == self@.stat_names,
    {
        &self.stat_names
    }

    /// The items, one per reported path.
    pub fn items(&self) -> (res: &Vec<ReportItem>)
        ensures
            items_view(res@) == self@.items,
    {
        &self.items
    }

    /// The table of the report: the header `path`, `category` and the
    /// statistic names; then, per item, its path, its category, and for each
    /// statistic name its value, or an empty cell where it has none.
    pub fn csv_rows(&self) -> (rows: Vec<Vec<String>>)
        ensures
            rows_view(rows@) == table_spec(self@),
    {
        let mut rows: Vec<Vec<String>> = Vec::new();
        let mut header: Vec<String> = Vec::new();
        header.push(String::from_str("path"));
        header.push(String::from_str("category"));
        let n = self.stat_names.len();
        for k in 0..n
            invariant
                n == self.stat_names@.len(),
                strings_view(header@) == seq!["path"@, "category"@] + strings_view(
                    self.stat_names@,
                ).take(k as int),
        {
            let ghost old_header = header@;
            header.push(self.stat_names[k].clone());
            assert(strings_view(header@) =~= strings_view(old_header).push(self.stat_names@[k as int]@));
            assert(strings_view(self.stat_names@).take(k + 1) =~= strings_view(self.stat_names@).take(
                k as int,
            ).push(self.stat_names@[k as int]@));
        }
        assert(strings_view(self.stat_names@).take(n as int) =~= strings_view(self.stat_names@));
        rows.push(header);
        let ghost names = strings_view(self.stat_names@);
        let m = self.items.len();
        for j in 0..m
            invariant
                n == self.stat_names@.len(),
                m == self.items@.len(),
                names == strings_view(self.stat_names@),
                rows_view(rows@) == seq![header_spec(names)] + items_view(self.items@).take(
                    j as int,
                ).map_values(|item: ReportItemView| row_spec(names, item)),
        {
            let item = &self.items[j];
            let mut row: Vec<String> = Vec::new();
            row.push(item.path.clone());
            row.push(item.category.clone());
            for k in 0..n
                invariant
                    n == self.stat_names@.len(),
                    names == strings_view(self.stat_names@),
                    strings_view(row@) == seq![item@.path, item@.category] + names.take(
                        k as int,
                    ).map_values(|name: Seq<char>| cell_spec(item@.stats, name)),
            {
                let ghost old_row = row@;
                let cell = stat_cell(&item.stats, &self.stat_names[k]);
                row.push(cell);
                assert(strings_view(row@) =~= strings_view(old_row).push(
                    cell_spec(item@.stats, names[k as int]),
                ));
                assert(names.take(k + 1).map_values(|name: Seq<char>| cell_spec(item@.stats, name))
                    =~= names.take(k as int).map_values(
                    |name: Seq<char>| cell_spec(item@.stats, name),
                ).push(cell_spec(item@.stats, names[k as int])));
            }
            assert(names.take(n as int) =~= names);
            let ghost old_rows = rows@;
            rows.push(row);
            assert(rows_view(rows@) =~= rows_view(old_rows).push(row_spec(names, item@)));
            assert(items_view(self.items@).take(j + 1).map_values(
                |item: ReportItemView| row_spec(names, item),
            ) =~= items_view(self.items@).take(j as int).map_values(
                |item: ReportItemView| row_spec(names, item),
            ).push(row_spec(names, item@)));
        }
        assert(items_view(self.items@).take(m as int) =~= items_view(self.items@));
        assert(rows_view(rows@) =~= table_spec(self@));
        rows
    }

    /// Appends the CSV encoding of the report's table to `out`: one record
    /// per row, the header first. It always succeeds.
    pub fn write_csv(&self, out: &mut Vec<u8>) -> (res: Result<(), CsvWriteError>)
        ensures
            res is Ok,
            final(out)@ == old(out)@ + csv_document(table_spec(self@)),
    {
        let rows = self.csv_rows();
        let ghost table = rows_view(rows@);
        let mut buf: Vec<u8> = Vec::new();
        let n = rows.len();
        for i in 0..n
            invariant
                n == rows@.len(),
                table == rows_view(rows@),
                table == table_spec(self@),
                buf@ == csv_document(table.take(i as int)),
        {
            match csv_encode_row(&rows[i]) {
                Some(mut bytes) => {
                    assert(table.take(i + 1).drop_last() =~= table.take(i as int));
                    assert(table.take(i + 1).last() == strings_view(rows@[i as int]@));
                    buf.append(&mut bytes);
                },
                None => {
                    return Err(CsvWriteError);
                },
            }
        }
        assert(table.take(n as int) =~= table);
        out.append(&mut buf);
        Ok(())
    }
}

/// What the run reports of a walk message, given the raw outputs of the
/// category's statistic commands: a file as `misc` with no statistics; a
/// directory with its category's name and, per statistic, its name and its
/// output with surrounding white space trimmed.
pub open spec fn item_spec(
    spec: ReportSpecView,
    message: MessageView,
    outputs: Seq<Seq<char>>,
) -> ReportItemView {
    match message {
        MessageView::MiscFile(p) => ReportItemView {
            path: p,
            category: "misc"@,
            stats: Seq::empty(),
        },
        MessageView::CategorizedDir(c, p) => {
            let category = spec.categories[c as int];
            ReportItemView {
                path: p,
                category: category.name,
                stats: Seq::new(
                    category.stats.len(),
                    |k: int|
                        StatValueView {
                            name: category.stats[k].name,
                            value: trim_spec(outputs[k]),
                        },
                ),
            }
        },
    }
}

/// A categorized directory names one of the categories, and comes with one
/// output per statistic of that category.
pub open spec fn outputs_fit(
    spec: ReportSpecView,
    message: MessageView,
    outputs: Seq<Seq<char>>,
) -> bool {
    match message {
        MessageView::MiscFile(_) => true,
        MessageView::CategorizedDir(c, _) => c < spec.categories.len() && outputs.len()
            == spec.categories[c as int].stats.len(),
    }
}

/// Runs a report: checks the roots and starts the walk, turns its messages
/// into items, and puts the items together into a report.
pub struct ReportRunner {
    report_spec: ReportSpec,
}

impl View for ReportRunner {
    type V = ReportSpecView;

    closed spec fn view(&self) -> ReportSpecView {
        self.report_spec@
    }
}

impl ReportRunner {
    pub fn new(report_spec: ReportSpec) -> (runner: ReportRunner)
        ensures
            runner@ == report_spec@,
    {
        ReportRunner { report_spec }
    }

    /// The report spec this runner works with.
    pub fn report_spec(&self) -> (res: &ReportSpec)
        ensures
            res@ == self@,
    {
        &self.report_spec
    }

    /// Starts a walk over `roots`, which must be given and must all be
    /// existing directories. The walk tries each category in turn.
    pub fn walk(&self, roots: &Vec<RootStatus>) -> (res: Result<Walker, WalkError>)
        ensures
            roots@.len() == 0 ==> res matches Err(WalkError::NoRoots),
            roots@.len() > 0 && bad_roots_spec(roots_view(roots@)).len() > 0 ==> (res matches Err(
                WalkError::BadRoots(bad),
            ) && strings_view(bad@) == bad_roots_spec(roots_view(roots@))),
            roots@.len() > 0 && bad_roots_spec(roots_view(roots@)).len() == 0 ==> (res matches Ok(
                w,
            ) && w@ == initial_spec(
                self@.categories.len(),
                root_entries(roots_view(roots@)),
            ) && categories_in_range(w@)),
    {
        if roots.len() == 0 {
            return Err(WalkError::NoRoots);
        }
        let ghost rv = roots_view(roots@);
        let mut bad: Vec<String> = Vec::new();
        let mut entries: Vec<Entry> = Vec::new();
        let n = roots.len();
        for i in 0..n
            invariant
                n == roots@.len(),
                rv == roots_view(roots@),
                strings_view(bad@) == bad_roots_spec(rv.take(i as int)),
                entries@.map_values(|e: Entry| e@) == root_entries(rv.take(i as int)),
        {
            let root = &roots[i];
            assert(rv.take(i + 1).drop_last() =~= rv.take(i as int));
            assert(rv.take(i + 1).last() == root@);
            if !(root.exists && root.is_dir) {
                let ghost old_bad = bad@;
                bad.push(root.path.clone());
                assert(strings_view(bad@) =~= strings_view(old_bad).push(root@.path));
            }
            let ghost old_entries = entries@;
            entries.push(Entry { path: root.path.clone(), is_dir: root.is_dir });
            assert(entries@.map_values(|e: Entry| e@) =~= old_entries.map_values(|e: Entry| e@).push(
                EntryView { path: root@.path, is_dir: root@.is_dir },
            ));
            assert(root_entries(rv.take(i + 1)) =~= root_entries(rv.take(i as int)).push(
                EntryView { path: root@.path, is_dir: root@.is_dir },
            ));
        }
        assert(rv.take(n as int) =~= rv);
        if bad.len() > 0 {
            return Err(WalkError::BadRoots(bad));
        }
        Ok(Walker::new(self.report_spec.categories.len(), entries))
    }

    /// The names of all statistics, category by category.
    pub fn stat_names(&self) -> (names: Vec<String>)
        ensures
            strings_view(names@) == all_stat_names(self@.categories),
    {
        self.report_spec.stat_names()
    }

    /// The item that the report holds for a walk message, given the raw
    /// outputs of the statistic commands of the directory's category, in the
    /// category's order (none for a file).
    pub fn item_for(&self, message: &WalkMessage, outputs: &Vec<String>) -> (item: ReportItem)
        requires
            outputs_fit(self@, message@, strings_view(outputs@)),
        ensures
            item@ == item_spec(self@, message@, strings_view(outputs@)),
    {
        match message {
            WalkMessage::MiscFile(p) => {
                let item = ReportItem {
                    path: p.clone(),
                    category: String::from_str("misc"),
                    stats: Vec::new(),
                };
                assert(item@.stats =~= Seq::<StatValueView>::empty());
                item
            },
            WalkMessage::CategorizedDir(c, p) => {
                let category = &self.report_spec.categories[*c];
                let ghost cv = self@.categories[*c as int];
                let m = category.stats.len();
                let mut stats: Vec<StatValue> = Vec::new();
                for k in 0..m
                    invariant
                        m == category.stats@.len(),
                        cv == category@,
                        m == outputs@.len(),
                        stats@.map_values(|s: StatValue| s@) == Seq::new(
                            k as nat,
                            |j: int|
                                StatValueView {
                                    name: cv.stats[j].name,
                                    value: trim_spec(outputs@[j]@),
                                },
                        ),
                {
                    let value = trim_white_space(outputs[k].as_str());
                    let ghost old_stats = stats@;
                    let name = category.stats[k].name.clone();
                    assert(cv.stats[k as int] == category.stats@[k as int]@);
                    assert(name@ == cv.stats[k as int].name);
                    let sv = StatValue { name, value };
                    stats.push(sv);
                    assert(stats@.map_values(|s: StatValue| s@) =~= old_stats.map_values(
                        |s: StatValue| s@,
                    ).push(sv@));
                    assert(stats@.map_values(|s: StatValue| s@) =~= Seq::new(
                        (k + 1) as nat,
                        |j: int|
                            StatValueView {
                                name: cv.stats[j].name,
                                value: trim_spec(outputs@[j]@),
                            },
                    ));
                }
                let item = ReportItem { path: p.clone(), category: category.name.clone(), stats };
                assert(item@.stats =~= item_spec(self@, message@, strings_view(outputs@)).stats);
                item
            },
        }
    }

    /// Puts the items together into a report whose columns are all the
    /// statistic names.
    pub fn finish(&self, items: Vec<ReportItem>) -> (report: Report)
        ensures
            report@ == (ReportView {
                stat_names: all_stat_names(self@.categories),
                items: items_view(items@),
            }),
    {
        Report { stat_names: self.stat_names(), items }
    }
}

/// A root is refused exactly when it does not exist or is not a directory:
/// the refused paths are none exactly when every root is an existing
/// directory, and each refused path is that of such a root.
pub proof fn lemma_bad_roots(roots: Seq<RootStatusView>)
    ensures
        bad_roots_spec(roots).len() == 0 <==> (forall|i: int|
            0 <= i < roots.len() ==> !is_bad_root(#[trigger] roots[i])),
        forall|k: int|
            #![trigger bad_roots_spec(roots)[k]]
            0 <= k < bad_roots_spec(roots).len() ==> exists|i: int|
                0 <= i < roots.len() && is_bad_root(#[trigger] roots[i]) && roots[i].path
                    == bad_roots_spec(roots)[k],
    decreases roots.len(),
{
    if roots.len() > 0 {
        let rest = roots.drop_last();
        lemma_bad_roots(rest);
        assert forall|i: int| 0 <= i < rest.len() implies rest[i] == roots[i] by {}
        if bad_roots_spec(roots).len() == 0 {
            assert forall|i: int| 0 <= i < roots.len() implies !is_bad_root(#[trigger] roots[i]) by {
                if i < rest.len() {
                    assert(rest[i] == roots[i]);
                }
            }
        }
        assert forall|k: int|
            #![trigger bad_roots_spec(roots)[k]]
            0 <= k < bad_roots_spec(roots).len() implies exists|i: int|
            0 <= i < roots.len() && is_bad_root(#[trigger] roots[i]) && roots[i].path
                == bad_roots_spec(roots)[k] by {
            if k < bad_roots_spec(rest).len() {
                let i = choose|i: int|
                    0 <= i < rest.len() && is_bad_root(#[trigger] rest[i]) && rest[i].path
                        == bad_roots_spec(rest)[k];
                assert(rest[i] == roots[i]);
            } else {
                assert(is_bad_root(roots[roots.len() - 1]));
            }
        }
    }
}

/// Every statistic of every category has a column: the statistic names are
/// the categories' statistic names, one after the other.
pub proof fn lemma_every_stat_has_a_column(categories: Seq<crate::config::CategorySpecView>, c: int, k: int)
    requires
        0 <= c < categories.len(),
        0 <= k < categories[c].stats.len(),
    ensures
        all_stat_names(categories).contains(categories[c].stats[k].name),
    decreases categories.len(),
{
    let last = categories.len() - 1;
    if c == last {
        let tail = categories.last().stats.map_values(|s: crate::config::StatSpecView| s.name);
        let all = all_stat_names(categories);
        let before = all_stat_names(categories.drop_last());
        assert(all[before.len() + k] == tail[k]);
    } else {
        lemma_every_stat_has_a_column(categories.drop_last(), c, k);
        let before = all_stat_names(categories.drop_last());
        let i = choose|i: int| 0 <= i < before.len() && before[i] == categories[c].stats[k].name;
        assert(all_stat_names(categories)[i] == before[i]);
    }
}

/// The table of a report has a header and one row per item, every row as
/// long as the header; an item's row starts with its path and its category.
pub proof fn lemma_table_shape(report: ReportView)
    ensures
        table_spec(report).len() == report.items.len() + 1,
        table_spec(report)[0] == header_spec(report.stat_names),
        forall|r: int|
            0 <= r < table_spec(report).len() ==> (#[trigger] table_spec(report)[r]).len()
                == report.stat_names.len() + 2,
        forall|j: int|
            0 <= j < report.items.len() ==> (#[trigger] table_spec(report)[j + 1])[0]
                == report.items[j].path && table_spec(report)[j + 1][1]
                == report.items[j].category,
{
    let t = table_spec(report);
    assert forall|r: int| 0 <= r < t.len() implies (#[trigger] t[r]).len() == report.stat_names.len()
        + 2 by {
        if r > 0 {
            assert(t[r] == row_spec(report.stat_names, report.items[r - 1]));
        }
    }
    assert forall|j: int| 0 <= j < report.items.len() implies (#[trigger] t[j + 1])[0]
        == report.items[j].path && t[j + 1][1] == report.items[j].category by {
        assert(t[j + 1] == row_spec(report.stat_names, report.items[j]));
    }
}

proof fn lemma_lookup_in_prefix(stats: Seq<StatValueView>, name: Seq<char>, k: int)
    requires
        0 <= k < stats.len(),
        stats[k].name == name,
        forall|j: int| k < j < stats.len() ==> (#[trigger] stats[j]).name != name,
    ensures
        stat_lookup(stats, name) == Some(stats[k].value),
    decreases stats.len(),
{
    if k < stats.len() - 1 {
        assert(stats.last() == stats[stats.len() - 1]);
        lemma_lookup_in_prefix(stats.drop_last(), name, k);
    }
}

proof fn lemma_lookup_absent(stats: Seq<StatValueView>, name: Seq<char>)
    requires
        forall|j: int| 0 <= j < stats.len() ==> (#[trigger] stats[j]).name != name,
    ensures
        stat_lookup(stats, name) is None,
    decreases stats.len(),
{
    if stats.len() > 0 {
        assert(stats.last() == stats[stats.len() - 1]);
        lemma_lookup_absent(stats.drop_last(), name);
    }
}

/// In the row of a categorized directory, the column of each statistic of
/// its category shows that statistic's trimmed output (where a category
/// names a statistic twice, the later one); every other column is empty.
/// In the row of a file, every statistic column is empty.
pub proof fn lemma_row_shows_outputs(
    spec: ReportSpecView,
    message: MessageView,
    outputs: Seq<Seq<char>>,
    name: Seq<char>,
)
    requires
        outputs_fit(spec, message, outputs),
    ensures
        ({
            let item = item_spec(spec, message, outputs);
            match message {
                MessageView::MiscFile(_) => cell_spec(item.stats, name) == Seq::<char>::empty(),
                MessageView::CategorizedDir(c, _) => {
                    let stats = spec.categories[c as int].stats;
                    &&& forall|k: int|
                        0 <= k < stats.len() && stats[k].name == name && (forall|j: int|
                            k < j < stats.len() ==> (#[trigger] stats[j]).name != name)
                            ==> cell_spec(item.stats, name) == trim_spec(outputs[k])
                    &&& (forall|k: int| 0 <= k < stats.len() ==> (#[trigger] stats[k]).name != name)
                        ==> cell_spec(item.stats, name) == Seq::<char>::empty()
                },
            }
        }),
{
    let item = item_spec(spec, message, outputs);
    match message {
        MessageView::MiscFile(_) => {},
        MessageView::CategorizedDir(c, _) => {
            let stats = spec.categories[c as int].stats;
            assert forall|k: int|
                0 <= k < stats.len() && stats[k].name == name && (forall|j: int|
                    k < j < stats.len() ==> (#[trigger] stats[j]).name != name) implies cell_spec(
                item.stats,
                name,
            ) == trim_spec(outputs[k]) by {
                assert forall|j: int| k < j < item.stats.len() implies (#[trigger] item.stats[j]).name
                    != name by {
                    assert(item.stats[j].name == stats[j].name);
                }
                lemma_lookup_in_prefix(item.stats, name, k);
            }
            if forall|k: int| 0 <= k < stats.len() ==> (#[trigger] stats[k]).name != name {
                assert forall|j: int| 0 <= j < item.stats.len() implies (#[trigger] item.stats[j]).name
                    != name by {
                    assert(item.stats[j].name == stats[j].name);
                }
                lemma_lookup_absent(item.stats, name);
            }
        },
    }
}

/// What `Report::write_csv` writes reads back as the report's table, whatever
/// commas, quotes or line ends the paths, categories, statistic names and
/// values hold: the header `path`, `category` and the statistic names, then
/// one record per item with its path, its category and its cell for each
/// statistic name; each field decodes from UTF-8 to the text of its cell.
pub proof fn lemma_report_csv_reads_back(report: ReportView)
    ensures
        read_document(csv_document(table_spec(report))) == table_spec(report).map_values(
            |row: Seq<Seq<char>>| row_fields(row),
        ),
        read_document(csv_document(table_spec(report))).len() == report.items.len() + 1,
        forall|r: int, c: int|
            0 <= r < table_spec(report).len() && 0 <= c < table_spec(report)[r].len() ==> decode_utf8(
                #[trigger] read_document(csv_document(table_spec(report)))[r][c],
            ) == table_spec(report)[r][c],
{
    let table = table_spec(report);
    lemma_table_shape(report);
    lemma_document_reads_back(table);
    let read = read_document(csv_document(table));
    assert forall|r: int, c: int| 0 <= r < table.len() && 0 <= c < table[r].len() implies decode_utf8(
        #[trigger] read[r][c],
    ) == table[r][c] by {
        assert(read[r] == row_fields(table[r]));
        encode_utf8_decode_utf8(table[r][c]);
    }
}

/// The walk starts with every root, in the order given: one entry per root,
/// with the root's path and whether it is a directory.
pub proof fn lemma_walk_starts_with_every_root(roots: Seq<RootStatusView>)
    ensures
        root_entries(roots).len() == roots.len(),
        forall|i: int|
            0 <= i < roots.len() ==> (#[trigger] root_entries(roots)[i]).path == roots[i].path
                && root_entries(roots)[i].is_dir == roots[i].is_dir,
{
}

/// Each statistic cell of the table is the item's value for that column's
/// name, wherever the column stands: the value of the last statistic of the
/// item with that name, or an empty cell when the item has none.
pub proof fn lemma_table_cells(report: ReportView, j: int, k: int)
    requires
        0 <= j < report.items.len(),
        0 <= k < report.stat_names.len(),
    ensures
        ({
            let stats = report.items[j].stats;
            let name = report.stat_names[k];
            let cell = table_spec(report)[j + 1][k + 2];
            &&& (forall|i: int| 0 <= i < stats.len() ==> (#[trigger] stats[i]).name != name) ==> cell
                == Seq::<char>::empty()
            &&& forall|i: int|
                0 <= i < stats.len() && stats[i].name == name && (forall|l: int|
                    i < l < stats.len() ==> (#[trigger] stats[l]).name != name) ==> cell
                    == (#[trigger] stats[i]).value
        }),
{
    let stats = report.items[j].stats;
    let name = report.stat_names[k];
    let t = table_spec(report);
    assert(t[j + 1] == row_spec(report.stat_names, report.items[j]));
    assert(t[j + 1][k + 2] == cell_spec(stats, name));
    if forall|i: int| 0 <= i < stats.len() ==> (#[trigger] stats[i]).name != name {
        lemma_lookup_absent(stats, name);
    }
    assert forall|i: int|
        0 <= i < stats.len() && stats[i].name == name && (forall|l: int|
            i < l < stats.len() ==> (#[trigger] stats[l]).name != name) implies t[j + 1][k + 2]
        == (#[trigger] stats[i]).value by {
        lemma_lookup_in_prefix(stats, name, i);
    }
}

/// The item of a file has the file's path, the category `misc` and no
/// statistics; the item of a directory has the directory's path, the name
/// of its category (whether or not the category has statistics), and one
/// statistic per statistic of the category, in order, each with the
/// statistic's name and the trimmed output of its command.
pub proof fn lemma_item_fields(spec: ReportSpecView, message: MessageView, outputs: Seq<Seq<char>>)
    requires
        outputs_fit(spec, message, outputs),
    ensures
        ({
            let item = item_spec(spec, message, outputs);
            match message {
                MessageView::MiscFile(p) => item.path == p && item.category == "misc"@
                    && item.stats.len() == 0,
                MessageView::CategorizedDir(c, p) => {
                    let category = spec.categories[c as int];
                    &&& item.path == p
                    &&& item.category == category.name
                    &&& item.stats.len() == category.stats.len()
                    &&& forall|k: int|
                        0 <= k < category.stats.len() ==> (#[trigger] item.stats[k]).name
                            == category.stats[k].name && item.stats[k].value == trim_spec(
                            outputs[k],
                        )
                },
            }
        }),
{
}

} // verus!
