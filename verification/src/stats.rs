//! Line statistics: counts per language, and per directory.
//!
//! Both tables keep their keys in the order in which they were first met,
//! and neither lists a key twice.

use crate::text::str_eq;
use vstd::prelude::*;
use vstd::string::*;

verus! {

/// The lines counted for one language.
#[derive(Debug)]
pub struct LanguageCount {
    pub language: String,
    pub lines: u64,
}

pub ghost struct LanguageCountView {
    pub language: Seq<char>,
    pub lines: nat,
}

impl View for LanguageCount {
    type V = LanguageCountView;

    open spec fn view(&self) -> LanguageCountView {
        LanguageCountView { language: self.language@, lines: self.lines as nat }
    }
}

/// The counts as models, in the same order.
pub open spec fn counts_view(counts: Seq<LanguageCount>) -> Seq<LanguageCountView> {
    Seq::new(counts.len(), |k: int| counts[k]@)
}

/// The sum of all counts.
pub open spec fn sum_lines(counts: Seq<LanguageCountView>) -> nat
    decreases counts.len(),
{
    if counts.len() == 0 {
        0
    } else {
        sum_lines(counts.drop_last()) + counts.last().lines
    }
}

/// The position of a language among the counts, or their number where it
/// is not among them.
pub open spec fn position_of(counts: Seq<LanguageCountView>, language: Seq<char>) -> int
    decreases counts.len(),
{
    if counts.len() == 0 {
        0
    } else if counts[0].language == language {
        0
    } else {
        1 + position_of(counts.skip(1), language)
    }
}

/// The lines counted for a language; 0 for one that is not listed.
pub open spec fn lines_of(counts: Seq<LanguageCountView>, language: Seq<char>) -> nat {
    if position_of(counts, language) < counts.len() {
        counts[position_of(counts, language)].lines
    } else {
        0
    }
}

/// Whether the language is listed.
pub open spec fn has_language(counts: Seq<LanguageCountView>, language: Seq<char>) -> bool {
    position_of(counts, language) < counts.len()
}

/// No language is listed twice.
pub open spec fn distinct_languages(counts: Seq<LanguageCountView>) -> bool {
    forall|i: int, j: int|
        0 <= i < j < counts.len() ==> counts[i].language != counts[j].language
}

/// The counts after `lines` more lines of `language`: added to its entry
/// where it has one, and entered behind all others where it has none.
pub open spec fn add_lines(
    counts: Seq<LanguageCountView>,
    language: Seq<char>,
    lines: nat,
) -> Seq<LanguageCountView> {
    let k = position_of(counts, language);
    if k < counts.len() {
        counts.update(k, LanguageCountView { language, lines: counts[k].lines + lines })
    } else {
        counts.push(LanguageCountView { language, lines })
    }
}

/// The position lies within the counts or just behind them; an entry at it
/// is the language's, and no entry in front of it is.
pub proof fn lemma_position_of(counts: Seq<LanguageCountView>, language: Seq<char>)
    ensures
        0 <= position_of(counts, language) <= counts.len(),
        position_of(counts, language) < counts.len() ==> counts[position_of(
            counts,
            language,
        )].language == language,
        forall|m: int|
            0 <= m < position_of(counts, language) ==> (#[trigger] counts[m]).language != language,
    decreases counts.len(),
{
    if counts.len() > 0 && counts[0].language != language {
        let rest = counts.skip(1);
        lemma_position_of(rest, language);
        let p = position_of(rest, language);
        if p < rest.len() {
            assert(counts[p + 1] == rest[p]);
        }
        assert forall|m: int| 0 <= m < p + 1 implies (#[trigger] counts[m]).language
            != language by {
            if m > 0 {
                assert(counts[m] == rest[m - 1]);
            }
        }
    }
}

/// Changing one count changes the sum by the same amount.
pub proof fn lemma_sum_lines_update(counts: Seq<LanguageCountView>, k: int, entry: LanguageCountView)
    requires
        0 <= k < counts.len(),
    ensures
        sum_lines(counts.update(k, entry)) + counts[k].lines == sum_lines(counts) + entry.lines,
    decreases counts.len(),
{
    let changed = counts.update(k, entry);
    if k == counts.len() - 1 {
        assert(changed.drop_last() =~= counts.drop_last());
    } else {
        assert(changed.drop_last() =~= counts.drop_last().update(k, entry));
        assert(counts.drop_last()[k] == counts[k]);
        lemma_sum_lines_update(counts.drop_last(), k, entry);
    }
}

/// No single count is larger than the sum.
pub proof fn lemma_count_within_sum(counts: Seq<LanguageCountView>, k: int)
    requires
        0 <= k < counts.len(),
    ensures
        counts[k].lines <= sum_lines(counts),
    decreases counts.len(),
{
    if k < counts.len() - 1 {
        assert(counts.drop_last()[k] == counts[k]);
        lemma_count_within_sum(counts.drop_last(), k);
    }
}

/// Adding lines raises the sum by as much, keeps every language listed
/// once, lists the language, and raises the count of that language alone.
pub proof fn lemma_add_lines(counts: Seq<LanguageCountView>, language: Seq<char>, lines: nat)
    requires
        distinct_languages(counts),
    ensures
        sum_lines(add_lines(counts, language, lines)) == sum_lines(counts) + lines,
        distinct_languages(add_lines(counts, language, lines)),
        has_language(add_lines(counts, language, lines), language),
        lines_of(add_lines(counts, language, lines), language) == lines_of(counts, language)
            + lines,
        forall|other: Seq<char>|
            other != language ==> lines_of(add_lines(counts, language, lines), other)
                == lines_of(counts, other) && has_language(
                add_lines(counts, language, lines),
                other,
            ) == has_language(counts, other),
{
    lemma_position_of(counts, language);
    let k = position_of(counts, language);
    let after = add_lines(counts, language, lines);
    if k < counts.len() {
        lemma_sum_lines_update(
            counts,
            k,
            LanguageCountView { language, lines: counts[k].lines + lines },
        );
    } else {
        assert(after.drop_last() =~= counts);
    }
    assert forall|i: int, j: int| 0 <= i < j < after.len() implies after[i].language
        != after[j].language by {
        if k < counts.len() {
            assert(after[i].language == counts[i].language);
            assert(after[j].language == counts[j].language);
        } else if j == counts.len() {
            assert(after[i] == counts[i]);
        } else {
            assert(after[i] == counts[i] && after[j] == counts[j]);
        }
    }
    lemma_position_of(after, language);
    let q = position_of(after, language);
    assert(after[k].language == language);
    if q < k {
        assert(after[q].language == counts[q].language);
    }
    assert(q == k);
    assert forall|other: Seq<char>| other != language implies lines_of(after, other) == lines_of(
        counts,
        other,
    ) && has_language(after, other) == has_language(counts, other) by {
        lemma_position_of(counts, other);
        lemma_position_of(after, other);
        let a = position_of(counts, other);
        let b = position_of(after, other);
        if a < counts.len() {
            assert(after[a].language == other);
            if b < a {
                assert(after[b].language == counts[b].language);
            }
        } else {
            if b < after.len() {
                if b < counts.len() {
                    assert(after[b].language == counts[b].language);
                    assert(counts[b].language != other);
                }
            }
        }
    }
}

/// Lines per language, in the order in which the languages were first met.
pub struct LanguageStats {
    counts: Vec<LanguageCount>,
}

impl View for LanguageStats {
    type V = Seq<LanguageCountView>;

    closed spec fn view(&self) -> Seq<LanguageCountView> {
        counts_view(self.counts@)
    }
}

impl LanguageStats {
    #[verifier::type_invariant]
    spec fn well_formed(&self) -> bool {
        distinct_languages(counts_view(self.counts@))
    }

    /// Statistics with no language in them.
    pub fn new() -> (stats: LanguageStats)
        ensures
            stats@ == Seq::<LanguageCountView>::empty(),
    {
        let stats = LanguageStats { counts: Vec::new() };
        assert(counts_view(stats.counts@) =~= Seq::<LanguageCountView>::empty());
        stats
    }

    /// The number of languages.
    pub fn len(&self) -> (n: usize)
        ensures
            n == self@.len(),
            distinct_languages(self@),
    {
        proof {
            use_type_invariant(self);
        }
        self.counts.len()
    }

    /// The name of the language at a position.
    pub fn language(&self, k: usize) -> (name: &str)
        requires
            k < self@.len(),
        ensures
            name@ == self@[k as int].language,
    {
        self.counts[k].language.as_str()
    }

    /// The lines of the language at a position.
    pub fn lines(&self, k: usize) -> (lines: u64)
        requires
            k < self@.len(),
        ensures
            lines as nat == self@[k as int].lines,
    {
        self.counts[k].lines
    }

    /// Where a language stands, or the number of languages where it is
    /// not listed.
    pub fn position(&self, language: &str) -> (k: usize)
        ensures
            k as int == position_of(self@, language@),
    {
        let mut i: usize = 0;
        proof {
            assert(self@.skip(0) =~= self@);
        }
        while i < self.counts.len()
            invariant
                i <= self.counts.len(),
                position_of(self@, language@) == i + position_of(self@.skip(i as int), language@),
            decreases self.counts.len() - i,
        {
            proof {
                assert(self@.skip(i as int)[0] == self.counts@[i as int]@);
                assert(self@.skip(i as int).skip(1) =~= self@.skip(i + 1));
            }
            if str_eq(self.counts[i].language.as_str(), language) {
                return i;
            }
            i += 1;
        }
        i
    }

    /// Counts `lines` more lines for `language`.
    pub fn add(&mut self, language: &str, lines: u64)
        requires
            sum_lines(old(self)@) + lines <= u64::MAX,
        ensures
            final(self)@ == add_lines(old(self)@, language@, lines as nat),
            distinct_languages(final(self)@),
    {
        proof {
            use_type_invariant(&*self);
            lemma_add_lines(self@, language@, lines as nat);
            lemma_position_of(self@, language@);
        }
        let ghost before = self@;
        let k = self.position(language);
        let mut counts: Vec<LanguageCount> = Vec::new();
        core::mem::swap(&mut self.counts, &mut counts);
        if k < counts.len() {
            proof {
                lemma_count_within_sum(before, k as int);
            }
            let entry = LanguageCount {
                language: String::from_str(language),
                lines: counts[k].lines + lines,
            };
            counts[k] = entry;
        } else {
            counts.push(LanguageCount { language: String::from_str(language), lines });
        }
        proof {
            assert(counts_view(counts@) =~= add_lines(before, language@, lines as nat));
        }
        self.counts = counts;
    }
}

/// What one directory holds directly: the lines of the files that lie in
/// it, not in a directory below it, in all and per language.
pub struct DirStats {
    lines: u64,
    languages: LanguageStats,
}

pub ghost struct DirStatsView {
    pub lines: nat,
    pub languages: Seq<LanguageCountView>,
}

impl View for DirStats {
    type V = DirStatsView;

    closed spec fn view(&self) -> DirStatsView {
        DirStatsView { lines: self.lines as nat, languages: self.languages@ }
    }
}

/// The line count of a directory is the sum of its languages' counts, and
/// no language is listed twice.
pub open spec fn dir_stats_valid(stats: DirStatsView) -> bool {
    stats.lines == sum_lines(stats.languages) && distinct_languages(stats.languages)
}

/// A directory's statistics after `lines` more lines of `language`.
pub open spec fn add_to_dir(stats: DirStatsView, language: Seq<char>, lines: nat) -> DirStatsView {
    DirStatsView {
        lines: stats.lines + lines,
        languages: add_lines(stats.languages, language, lines),
    }
}

impl Default for DirStats {
    fn default() -> (stats: DirStats)
        ensures
            stats@ == (DirStatsView { lines: 0, languages: Seq::empty() }),
    {
        DirStats::new()
    }
}

impl DirStats {
    #[verifier::type_invariant]
    spec fn well_formed(&self) -> bool {
        dir_stats_valid(self@)
    }

    /// Statistics of a directory in which nothing was counted yet.
    pub fn new() -> (stats: DirStats)
        ensures
            stats@ == (DirStatsView { lines: 0, languages: Seq::empty() }),
    {
        DirStats { lines: 0, languages: LanguageStats::new() }
    }

    /// The lines of the files directly in the directory.
    pub fn lines(&self) -> (lines: u64)
        ensures
            lines as nat == self@.lines,
            dir_stats_valid(self@),
    {
        proof {
            use_type_invariant(self);
        }
        self.lines
    }

    /// The same lines, per language.
    pub fn languages(&self) -> (languages: &LanguageStats)
        ensures
            languages@ == self@.languages,
            dir_stats_valid(self@),
    {
        proof {
            use_type_invariant(self);
        }
        &self.languages
    }

    /// Counts `lines` more lines of `language` in the directory.
    pub fn add(&mut self, language: &str, lines: u64)
        requires
            old(self)@.lines + lines <= u64::MAX,
        ensures
            final(self)@ == add_to_dir(old(self)@, language@, lines as nat),
            dir_stats_valid(final(self)@),
    {
        proof {
            use_type_invariant(&*self);
        }
        let mut taken = DirStats::new();
        core::mem::swap(self, &mut taken);
        let DirStats { lines: counted, languages } = taken;
        let mut languages = languages;
        proof {
            lemma_add_lines(languages@, language@, lines as nat);
        }
        languages.add(language, lines);
        *self = DirStats { lines: counted + lines, languages };
    }
}

/// One directory of the walk: its path relative to the repository root,
/// the empty path for the root itself, and what it holds directly.
pub ghost struct DirectoryView {
    pub path: Seq<char>,
    pub lines: nat,
    pub languages: Seq<LanguageCountView>,
}

struct DirectoryRecord {
    path: String,
    stats: DirStats,
}

impl View for DirectoryRecord {
    type V = DirectoryView;

    closed spec fn view(&self) -> DirectoryView {
        DirectoryView {
            path: self.path@,
            lines: self.stats@.lines,
            languages: self.stats@.languages,
        }
    }
}

/// The position of a directory among the records, or their number where it
/// is not among them.
pub open spec fn dir_position(dirs: Seq<DirectoryView>, path: Seq<char>) -> int
    decreases dirs.len(),
{
    if dirs.len() == 0 {
        0
    } else if dirs[0].path == path {
        0
    } else {
        1 + dir_position(dirs.skip(1), path)
    }
}

/// Whether the directory has a record.
pub open spec fn has_dir(dirs: Seq<DirectoryView>, path: Seq<char>) -> bool {
    dir_position(dirs, path) < dirs.len()
}

/// The lines counted directly in a directory; 0 for one without a record.
pub open spec fn dir_lines(dirs: Seq<DirectoryView>, path: Seq<char>) -> nat {
    if has_dir(dirs, path) {
        dirs[dir_position(dirs, path)].lines
    } else {
        0
    }
}

/// The sum of the line counts of all directories.
pub open spec fn sum_dir_lines(dirs: Seq<DirectoryView>) -> nat
    decreases dirs.len(),
{
    if dirs.len() == 0 {
        0
    } else {
        sum_dir_lines(dirs.drop_last()) + dirs.last().lines
    }
}

/// No directory has two records, and every record is valid in itself.
pub open spec fn dirs_valid(dirs: Seq<DirectoryView>) -> bool {
    &&& forall|i: int, j: int| 0 <= i < j < dirs.len() ==> dirs[i].path != dirs[j].path
    &&& forall|i: int|
        0 <= i < dirs.len() ==> dir_stats_valid(
            DirStatsView { lines: (#[trigger] dirs[i]).lines, languages: dirs[i].languages },
        )
}

/// The records after `lines` more lines of `language` directly in `path`:
/// added to the record of `path` where it has one, and entered in a new
/// record behind all others where it has none.
pub open spec fn add_to_dirs(
    dirs: Seq<DirectoryView>,
    path: Seq<char>,
    language: Seq<char>,
    lines: nat,
) -> Seq<DirectoryView> {
    let k = dir_position(dirs, path);
    if k < dirs.len() {
        dirs.update(
            k,
            DirectoryView {
                path,
                lines: dirs[k].lines + lines,
                languages: add_lines(dirs[k].languages, language, lines),
            },
        )
    } else {
        dirs.push(
            DirectoryView {
                path,
                lines,
                languages: add_lines(Seq::empty(), language, lines),
            },
        )
    }
}

/// The position lies within the records or just behind them; a record at
/// it is the directory's, and no record in front of it is.
pub proof fn lemma_dir_position(dirs: Seq<DirectoryView>, path: Seq<char>)
    ensures
        0 <= dir_position(dirs, path) <= dirs.len(),
        dir_position(dirs, path) < dirs.len() ==> dirs[dir_position(dirs, path)].path == path,
        forall|m: int| 0 <= m < dir_position(dirs, path) ==> (#[trigger] dirs[m]).path != path,
    decreases dirs.len(),
{
    if dirs.len() > 0 && dirs[0].path != path {
        let rest = dirs.skip(1);
        lemma_dir_position(rest, path);
        let p = dir_position(rest, path);
        if p < rest.len() {
            assert(dirs[p + 1] == rest[p]);
        }
        assert forall|m: int| 0 <= m < p + 1 implies (#[trigger] dirs[m]).path != path by {
            if m > 0 {
                assert(dirs[m] == rest[m - 1]);
            }
        }
    }
}

/// Where no two records share a path, a record stands at the position of
/// its own path.
pub proof fn lemma_dir_position_of_record(dirs: Seq<DirectoryView>, k: int)
    requires
        0 <= k < dirs.len(),
        forall|i: int, j: int| 0 <= i < j < dirs.len() ==> dirs[i].path != dirs[j].path,
    ensures
        dir_position(dirs, dirs[k].path) == k,
{
    lemma_dir_position(dirs, dirs[k].path);
    let p = dir_position(dirs, dirs[k].path);
    if p > k {
        assert(dirs[k].path != dirs[k].path);
    }
}

/// Changing one record changes the sum by the same amount.
pub proof fn lemma_sum_dir_lines_update(dirs: Seq<DirectoryView>, k: int, entry: DirectoryView)
    requires
        0 <= k < dirs.len(),
    ensures
        sum_dir_lines(dirs.update(k, entry)) + dirs[k].lines == sum_dir_lines(dirs) + entry.lines,
    decreases dirs.len(),
{
    let changed = dirs.update(k, entry);
    if k == dirs.len() - 1 {
        assert(changed.drop_last() =~= dirs.drop_last());
    } else {
        assert(changed.drop_last() =~= dirs.drop_last().update(k, entry));
        assert(dirs.drop_last()[k] == dirs[k]);
        lemma_sum_dir_lines_update(dirs.drop_last(), k, entry);
    }
}

/// No single directory holds more lines than all together.
pub proof fn lemma_dir_within_sum(dirs: Seq<DirectoryView>, k: int)
    requires
        0 <= k < dirs.len(),
    ensures
        dirs[k].lines <= sum_dir_lines(dirs),
    decreases dirs.len(),
{
    if k < dirs.len() - 1 {
        assert(dirs.drop_last()[k] == dirs[k]);
        lemma_dir_within_sum(dirs.drop_last(), k);
    }
}

/// Adding lines to a directory raises the sum over all directories by as
/// much, keeps the records valid, raises the count of that directory
/// alone, and drops no directory.
pub proof fn lemma_add_to_dirs(
    dirs: Seq<DirectoryView>,
    path: Seq<char>,
    language: Seq<char>,
    lines: nat,
)
    requires
        dirs_valid(dirs),
    ensures
        sum_dir_lines(add_to_dirs(dirs, path, language, lines)) == sum_dir_lines(dirs) + lines,
        dirs_valid(add_to_dirs(dirs, path, language, lines)),
        has_dir(add_to_dirs(dirs, path, language, lines), path),
        dir_lines(add_to_dirs(dirs, path, language, lines), path) == dir_lines(dirs, path)
            + lines,
        forall|other: Seq<char>|
            other != path ==> dir_lines(add_to_dirs(dirs, path, language, lines), other)
                == dir_lines(dirs, other) && has_dir(
                add_to_dirs(dirs, path, language, lines),
                other,
            ) == has_dir(dirs, other),
{
    lemma_dir_position(dirs, path);
    let k = dir_position(dirs, path);
    let after = add_to_dirs(dirs, path, language, lines);
    if k < dirs.len() {
        lemma_sum_dir_lines_update(dirs, k, after[k]);
        assert(dir_stats_valid(DirStatsView { lines: dirs[k].lines, languages: dirs[k].languages }));
        lemma_add_lines(dirs[k].languages, language, lines);
    } else {
        assert(after.drop_last() =~= dirs);
        lemma_add_lines(Seq::empty(), language, lines);
    }
    assert forall|i: int, j: int| 0 <= i < j < after.len() implies after[i].path
        != after[j].path by {
        if k < dirs.len() {
            assert(after[i].path == dirs[i].path);
            assert(after[j].path == dirs[j].path);
        } else if j == dirs.len() {
            assert(after[i] == dirs[i]);
        } else {
            assert(after[i] == dirs[i] && after[j] == dirs[j]);
        }
    }
    assert forall|i: int| 0 <= i < after.len() implies dir_stats_valid(
        DirStatsView { lines: (#[trigger] after[i]).lines, languages: after[i].languages },
    ) by {
        if i != k {
            assert(after[i] == dirs[i]);
        }
    }
    lemma_dir_position(after, path);
    let q = dir_position(after, path);
    assert(after[k].path == path);
    if q < k {
        assert(after[q].path == dirs[q].path);
    }
    assert(q == k);
    assert forall|other: Seq<char>| other != path implies dir_lines(after, other) == dir_lines(
        dirs,
        other,
    ) && has_dir(after, other) == has_dir(dirs, other) by {
        lemma_dir_position(dirs, other);
        lemma_dir_position(after, other);
        let a = dir_position(dirs, other);
        let b = dir_position(after, other);
        if a < dirs.len() {
            assert(after[a].path == other);
            if b < a {
                assert(after[b].path == dirs[b].path);
            }
        } else {
            if b < after.len() {
                if b < dirs.len() {
                    assert(after[b].path == dirs[b].path);
                    assert(dirs[b].path != other);
                }
            }
        }
    }
}

/// The directories in which the walk counted files, in the order in which
/// it first met them.
pub struct DirectoryStats {
    records: Vec<DirectoryRecord>,
}

impl View for DirectoryStats {
    type V = Seq<DirectoryView>;

    closed spec fn view(&self) -> Seq<DirectoryView> {
        Seq::new(self.records@.len(), |k: int| self.records@[k]@)
    }
}

impl DirectoryStats {
    #[verifier::type_invariant]
    spec fn well_formed(&self) -> bool {
        dirs_valid(self@)
    }

    /// Statistics with no directory in them.
    pub fn new() -> (dirs: DirectoryStats)
        ensures
            dirs@ == Seq::<DirectoryView>::empty(),
    {
        let dirs = DirectoryStats { records: Vec::new() };
        assert(dirs@ =~= Seq::<DirectoryView>::empty());
        dirs
    }

    /// The number of directories.
    pub fn len(&self) -> (n: usize)
        ensures
            n == self@.len(),
            dirs_valid(self@),
    {
        proof {
            use_type_invariant(self);
        }
        self.records.len()
    }

    /// The path of the directory at a position.
    pub fn path(&self, k: usize) -> (path: &str)
        requires
            k < self@.len(),
        ensures
            path@ == self@[k as int].path,
    {
        self.records[k].path.as_str()
    }

    /// What the directory at a position holds.
    pub fn stats(&self, k: usize) -> (stats: &DirStats)
        requires
            k < self@.len(),
        ensures
            stats@.lines == self@[k as int].lines,
            stats@.languages == self@[k as int].languages,
            dir_stats_valid(stats@),
    {
        proof {
            use_type_invariant(self);
            assert(dir_stats_valid(
                DirStatsView { lines: self@[k as int].lines, languages: self@[k as int].languages },
            ));
        }
        &self.records[k].stats
    }

    /// Where a directory stands, or the number of directories where it
    /// has no record.
    pub fn position(&self, path: &str) -> (k: usize)
        ensures
            k as int == dir_position(self@, path@),
    {
        let mut i: usize = 0;
        proof {
            assert(self@.skip(0) =~= self@);
        }
        while i < self.records.len()
            invariant
                i <= self.records.len(),
                dir_position(self@, path@) == i + dir_position(self@.skip(i as int), path@),
            decreases self.records.len() - i,
        {
            proof {
                assert(self@.skip(i as int)[0] == self.records@[i as int]@);
                assert(self@.skip(i as int).skip(1) =~= self@.skip(i + 1));
            }
            if str_eq(self.records[i].path.as_str(), path) {
                return i;
            }
            i += 1;
        }
        i
    }

    /// Counts `lines` more lines of `language` directly in `path`.
    pub fn add(&mut self, path: &str, language: &str, lines: u64)
        requires
            sum_dir_lines(old(self)@) + lines <= u64::MAX,
        ensures
            final(self)@ == add_to_dirs(old(self)@, path@, language@, lines as nat),
    {
        proof {
            use_type_invariant(&*self);
            lemma_dir_position(self@, path@);
        }
        let ghost before = self@;
        let k = self.position(path);
        let mut records: Vec<DirectoryRecord> = Vec::new();
        core::mem::swap(&mut self.records, &mut records);
        if k < records.len() {
            proof {
                lemma_dir_within_sum(before, k as int);
            }
            records[k].stats.add(language, lines);
        } else {
            let mut stats = DirStats::new();
            stats.add(language, lines);
            records.push(DirectoryRecord { path: String::from_str(path), stats });
        }
        proof {
            let after = Seq::new(records@.len(), |m: int| records@[m]@);
            assert(after =~= add_to_dirs(before, path@, language@, lines as nat));
            lemma_add_to_dirs(before, path@, language@, lines as nat);
        }
        self.records = records;
    }
}

} // verus!
