//! Language breakdowns: the languages of a scope, largest first.

use crate::language::{color_of_lowercase, get_language_color};
use crate::models::{breakdown_view, by_lines, LanguageBreakdown, LanguageBreakdownView};
use crate::order::{
    insert_descending, insertion_point, is_descending, is_distinct_by, lemma_insertion_point,
    lemma_sort_keeps_distinct,
    lemma_insertion_point_unique, lemma_sort_contains, lemma_sort_descending, sort_descending,
};
use crate::stats::{
    distinct_languages, lemma_count_within_sum, sum_lines, LanguageCountView, LanguageStats,
};
use crate::text::lowercase_of;
use vstd::prelude::*;
use vstd::string::*;

verus! {

/// The breakdown entry of one language count against a total.
pub open spec fn breakdown_entry(count: LanguageCountView, total: nat) -> LanguageBreakdownView {
    LanguageBreakdownView {
        language: count.language,
        lines: count.lines,
        total,
        color: color_of_lowercase(lowercase_of(count.language)),
    }
}

/// The entries of all counts, in the order of the counts.
pub open spec fn breakdown_entries(
    counts: Seq<LanguageCountView>,
    total: nat,
) -> Seq<LanguageBreakdownView> {
    Seq::new(counts.len(), |k: int| breakdown_entry(counts[k], total))
}

/// The breakdown of a total by language: empty where the total is 0, and
/// otherwise one entry per language, most lines first, languages with as
/// many lines in the order of the counts.
pub open spec fn language_breakdown(
    counts: Seq<LanguageCountView>,
    total: nat,
) -> Seq<LanguageBreakdownView> {
    if total == 0 {
        Seq::empty()
    } else {
        sort_descending(breakdown_entries(counts, total), by_lines())
    }
}

/// The sum of the line counts of the entries.
pub open spec fn sum_breakdown_lines(entries: Seq<LanguageBreakdownView>) -> nat
    decreases entries.len(),
{
    if entries.len() == 0 {
        0
    } else {
        sum_breakdown_lines(entries.drop_last()) + entries.last().lines
    }
}

/// An entry whose share is a percentage: at least 0 and at most 100 of a
/// hundred, which is to say that its lines are part of a total that is
/// not 0.
pub open spec fn share_is_percentage(entry: LanguageBreakdownView) -> bool {
    entry.total > 0 && 0 <= 100 * entry.lines <= 100 * entry.total
}

/// Puts `entry` into a list that is in descending order of lines, behind
/// the entries with as many lines or more.
fn insert_entry(entries: &mut Vec<LanguageBreakdown>, entry: LanguageBreakdown)
    ensures
        breakdown_view(final(entries)@) == insert_descending(
            breakdown_view(old(entries)@),
            by_lines(),
            entry@,
        ),
{
    let ghost before = breakdown_view(entries@);
    let mut k: usize = 0;
    while k < entries.len() && entries[k].lines >= entry.lines
        invariant
            k <= entries.len(),
            before == breakdown_view(entries@),
            forall|m: int| 0 <= m < k ==> by_lines()(#[trigger] before[m]) >= by_lines()(entry@),
        decreases entries.len() - k,
    {
        k += 1;
    }
    proof {
        lemma_insertion_point_unique(before, by_lines(), entry@, k as int);
    }
    entries.insert(k, entry);
    proof {
        assert(breakdown_view(entries@) =~= before.insert(k as int, entry@));
    }
}

/// The breakdown of `total` lines by language. Nothing where the total is
/// 0; otherwise every language of `stats` with its lines, the total, and
/// its display color, most lines first.
pub fn calculate_language_breakdown(stats: &LanguageStats, total: u64) -> (breakdown: Vec<
    LanguageBreakdown,
>)
    ensures
        breakdown_view(breakdown@) == language_breakdown(stats@, total as nat),
{
    let mut breakdown: Vec<LanguageBreakdown> = Vec::new();
    if total == 0 {
        assert(breakdown_view(breakdown@) =~= Seq::<LanguageBreakdownView>::empty());
        return breakdown;
    }
    let ghost all = breakdown_entries(stats@, total as nat);
    let n: usize = stats.len();
    let mut k: usize = 0;
    proof {
        assert(breakdown_view(breakdown@) =~= sort_descending(all.take(0), by_lines()));
    }
    while k < n
        invariant
            k <= n,
            n == stats@.len(),
            total > 0,
            all == breakdown_entries(stats@, total as nat),
            breakdown_view(breakdown@) == sort_descending(all.take(k as int), by_lines()),
        decreases n - k,
    {
        let name = stats.language(k);
        let entry = LanguageBreakdown {
            language: String::from_str(name),
            lines: stats.lines(k),
            total,
            color: String::from_str(get_language_color(name)),
        };
        proof {
            assert(all.take(k + 1).drop_last() =~= all.take(k as int));
            assert(all.take(k + 1).last() == entry@);
        }
        insert_entry(&mut breakdown, entry);
        k += 1;
    }
    proof {
        assert(all.take(n as int) =~= all);
    }
    breakdown
}

/// Inserting an entry raises the sum by its lines.
pub proof fn lemma_sum_breakdown_insert(
    entries: Seq<LanguageBreakdownView>,
    at: int,
    entry: LanguageBreakdownView,
)
    requires
        0 <= at <= entries.len(),
    ensures
        sum_breakdown_lines(entries.insert(at, entry)) == sum_breakdown_lines(entries)
            + entry.lines,
    decreases entries.len(),
{
    let longer = entries.insert(at, entry);
    if at == entries.len() {
        assert(longer.drop_last() =~= entries);
    } else {
        assert(longer.drop_last() =~= entries.drop_last().insert(at, entry));
        assert(longer.last() == entries.last());
        lemma_sum_breakdown_insert(entries.drop_last(), at, entry);
    }
}

/// The entries of a breakdown sum up to what the counts sum up to.
pub proof fn lemma_breakdown_entries_sum(counts: Seq<LanguageCountView>, total: nat)
    ensures
        sum_breakdown_lines(breakdown_entries(counts, total)) == sum_lines(counts),
    decreases counts.len(),
{
    if counts.len() > 0 {
        lemma_breakdown_entries_sum(counts.drop_last(), total);
        assert(breakdown_entries(counts, total).drop_last() =~= breakdown_entries(
            counts.drop_last(),
            total,
        ));
    }
}

/// Ordering the entries leaves their sum as it was.
pub proof fn lemma_sorted_breakdown_sum(entries: Seq<LanguageBreakdownView>)
    ensures
        sum_breakdown_lines(sort_descending(entries, by_lines())) == sum_breakdown_lines(entries),
    decreases entries.len(),
{
    if entries.len() > 0 {
        let sorted = sort_descending(entries.drop_last(), by_lines());
        lemma_sorted_breakdown_sum(entries.drop_last());
        lemma_insertion_point(sorted, by_lines(), entries.last());
        lemma_sum_breakdown_insert(
            sorted,
            insertion_point(sorted, by_lines(), entries.last()),
            entries.last(),
        );
    }
}

/// The lines of a breakdown add up to the total that it breaks down,
/// where that total is the sum of the counts.
pub proof fn lemma_breakdown_sums_to_total(counts: Seq<LanguageCountView>, total: nat)
    requires
        total == sum_lines(counts),
    ensures
        sum_breakdown_lines(language_breakdown(counts, total)) == total,
{
    if total > 0 {
        lemma_breakdown_entries_sum(counts, total);
        lemma_sorted_breakdown_sum(breakdown_entries(counts, total));
    }
}

/// A breakdown is empty exactly where the total is 0, and every entry of
/// it has a share between 0 and 100 percent, where the total is the sum of
/// the counts. It is in descending order of lines.
pub proof fn lemma_breakdown_shares(counts: Seq<LanguageCountView>, total: nat)
    requires
        total == sum_lines(counts),
    ensures
        language_breakdown(counts, total).len() == 0 <==> total == 0,
        forall|k: int|
            0 <= k < language_breakdown(counts, total).len() ==> share_is_percentage(
                #[trigger] language_breakdown(counts, total)[k],
            ),
        is_descending(language_breakdown(counts, total), by_lines()),
{
    let result = language_breakdown(counts, total);
    if total > 0 {
        let entries = breakdown_entries(counts, total);
        lemma_sort_descending(entries, by_lines());
        assert(counts.len() > 0);
        assert forall|k: int| 0 <= k < result.len() implies share_is_percentage(
            #[trigger] result[k],
        ) by {
            lemma_sort_contains(entries, by_lines(), result[k]);
            assert(result.contains(result[k]));
            let m = choose|m: int| 0 <= m < entries.len() && entries[m] == result[k];
            lemma_count_within_sum(counts, m);
            assert(100 * counts[m].lines <= 100 * total) by (nonlinear_arith)
                requires
                    counts[m].lines <= total,
            ;
        }
    }
}

/// Every entry of a breakdown carries the total that was broken down.
pub proof fn lemma_breakdown_totals(counts: Seq<LanguageCountView>, total: nat)
    ensures
        forall|k: int|
            0 <= k < language_breakdown(counts, total).len() ==> (#[trigger] language_breakdown(
                counts,
                total,
            )[k]).total == total,
{
    let result = language_breakdown(counts, total);
    if total > 0 {
        let entries = breakdown_entries(counts, total);
        assert forall|k: int| 0 <= k < result.len() implies (#[trigger] result[k]).total
            == total by {
            lemma_sort_contains(entries, by_lines(), result[k]);
            assert(result.contains(result[k]));
            let m = choose|m: int| 0 <= m < entries.len() && entries[m] == result[k];
        }
    }
}

/// The mark by which the entries of a breakdown are told apart: the
/// language.
pub open spec fn by_language() -> spec_fn(LanguageBreakdownView) -> Seq<char> {
    |entry: LanguageBreakdownView| entry.language
}

/// No language stands twice in a breakdown, where none is counted twice.
pub proof fn lemma_breakdown_languages_are_distinct(counts: Seq<LanguageCountView>, total: nat)
    requires
        distinct_languages(counts),
    ensures
        forall|i: int, j: int|
            0 <= i < j < language_breakdown(counts, total).len() ==> language_breakdown(
                counts,
                total,
            )[i].language != language_breakdown(counts, total)[j].language,
{
    if total > 0 {
        let entries = breakdown_entries(counts, total);
        assert(is_distinct_by(entries, by_language()));
        lemma_sort_keeps_distinct(entries, by_lines(), by_language());
        let result = language_breakdown(counts, total);
        assert forall|i: int, j: int| 0 <= i < j < result.len() implies result[i].language
            != result[j].language by {
            assert(by_language()(result[i]) != by_language()(result[j]));
        }
    }
}

} // verus!
