//! The pipeline from walked paths to the finished aggregate: every regular
//! file that the exclusion rules let through is attributed to a language and
//! merged into the aggregate, and the shares are computed at the end.

use crate::exclusion::excluded;
use crate::exclusion::ExclusionContext;
use crate::exclusion::ExclusionModel;
use crate::langs::path_language;
use vstd::prelude::*;
use vstd::seq_lib::to_multiset_contains;
use vstd::seq_lib::to_multiset_len;
use vstd::seq_lib::to_multiset_remove;

pub use crate::langs::get_file_lang;
pub use crate::langs::Language;
pub use crate::lines::count_newlines;
pub use crate::stats::LangEntry;
pub use crate::stats::LangStat;
pub use crate::stats::Stats;

verus! {

/// What a run is asked to do.
pub struct GetStatsOptions {
    /// Whether paths are filtered by the exclusion rules. When this is off
    /// every path is counted.
    pub gitignore: bool,
}

impl Default for GetStatsOptions {
    /// Exclusion is on unless it is switched off.
    fn default() -> (options: Self)
        ensures
            options.gitignore,
    {
        GetStatsOptions { gitignore: true }
    }
}

/// One path that the walk came upon: its name relative to the root, whether
/// it is a directory, and the line count of its content (zero for a
/// directory, and for a file that could not be read).
#[derive(Debug)]
pub struct PathEntry {
    pub path: Vec<u8>,
    pub is_dir: bool,
    pub loc: usize,
}

/// What can be summed over the counted files.
pub enum Quantity {
    /// The number of files.
    Files,
    /// The lines of all files.
    Lines,
    /// The lines of the files of one language.
    LinesOf(Language),
}

/// Whether an entry takes part in the count: a file, not a directory, that
/// the rules do not exclude.
pub open spec fn is_counted(entry: PathEntry, rules: ExclusionModel) -> bool {
    !entry.is_dir && !excluded(rules, entry.path@, false)
}

/// The language an entry is attributed to: that of its extension, or
/// `Other`.
pub open spec fn language_of(entry: PathEntry) -> Language {
    match path_language(entry.path@) {
        Some(lang) => lang,
        None => Language::Other,
    }
}

/// What one entry adds to a quantity.
pub open spec fn amount(entry: PathEntry, rules: ExclusionModel, quantity: Quantity) -> nat {
    if !is_counted(entry, rules) {
        0
    } else {
        match quantity {
            Quantity::Files => 1,
            Quantity::Lines => entry.loc as nat,
            Quantity::LinesOf(lang) => if language_of(entry) == lang {
                entry.loc as nat
            } else {
                0
            },
        }
    }
}

/// A quantity summed over all entries.
pub open spec fn total(entries: Seq<PathEntry>, rules: ExclusionModel, quantity: Quantity) -> nat
    decreases entries.len(),
{
    if entries.len() == 0 {
        0
    } else {
        total(entries.drop_last(), rules, quantity) + amount(entries.last(), rules, quantity)
    }
}

/// Whether some counted file is of the language.
pub open spec fn language_seen(
    entries: Seq<PathEntry>,
    rules: ExclusionModel,
    lang: Language,
) -> bool {
    exists|i: int|
        0 <= i < entries.len() && is_counted(#[trigger] entries[i], rules) && language_of(
            entries[i],
        ) == lang
}

/// The entries of all batches, one batch after the other.
pub open spec fn joined(batches: Seq<Vec<PathEntry>>) -> Seq<PathEntry>
    decreases batches.len(),
{
    if batches.len() == 0 {
        Seq::empty()
    } else {
        joined(batches.drop_last()) + batches.last()@
    }
}

/// Whether the aggregate holds exactly the counts of the entries: the
/// totals, the languages that were seen, and the lines of each.
pub open spec fn tallies(stats: Stats, entries: Seq<PathEntry>, rules: ExclusionModel) -> bool {
    &&& stats.wf()
    &&& stats.number_of_files == total(entries, rules, Quantity::Files)
    &&& stats.total_loc == total(entries, rules, Quantity::Lines)
    &&& forall|lang: Language| #[trigger]
        stats@.contains_key(lang) == language_seen(entries, rules, lang)
    &&& forall|lang: Language| #[trigger]
        stats.loc_of(lang) == total(entries, rules, Quantity::LinesOf(lang))
}

/// Sums are additive over concatenation.
pub proof fn lemma_total_concat(
    a: Seq<PathEntry>,
    b: Seq<PathEntry>,
    rules: ExclusionModel,
    quantity: Quantity,
)
    ensures
        total(a + b, rules, quantity) == total(a, rules, quantity) + total(b, rules, quantity),
    decreases b.len(),
{
    if b.len() == 0 {
        assert(a + b =~= a);
    } else {
        assert((a + b).drop_last() =~= a + b.drop_last());
        lemma_total_concat(a, b.drop_last(), rules, quantity);
    }
}

/// The sum over the first entries is at most the sum over all.
pub proof fn lemma_total_prefix(
    entries: Seq<PathEntry>,
    n: int,
    rules: ExclusionModel,
    quantity: Quantity,
)
    requires
        0 <= n <= entries.len(),
    ensures
        total(entries.take(n), rules, quantity) <= total(entries, rules, quantity),
{
    assert(entries.take(n) + entries.skip(n) =~= entries);
    lemma_total_concat(entries.take(n), entries.skip(n), rules, quantity);
}

/// No more files are counted than there are entries.
pub proof fn lemma_files_bound(entries: Seq<PathEntry>, rules: ExclusionModel)
    ensures
        total(entries, rules, Quantity::Files) <= entries.len(),
    decreases entries.len(),
{
    if entries.len() > 0 {
        lemma_files_bound(entries.drop_last(), rules);
    }
}

/// A language is seen in a concatenation if it is seen in either part.
pub proof fn lemma_seen_concat(
    a: Seq<PathEntry>,
    b: Seq<PathEntry>,
    rules: ExclusionModel,
    lang: Language,
)
    ensures
        language_seen(a + b, rules, lang) == (language_seen(a, rules, lang) || language_seen(
            b,
            rules,
            lang,
        )),
{
    let ab = a + b;
    if language_seen(ab, rules, lang) {
        let i = choose|i: int|
            0 <= i < ab.len() && is_counted(#[trigger] ab[i], rules) && language_of(ab[i]) == lang;
        if i < a.len() {
            assert(a[i] == ab[i]);
        } else {
            assert(b[i - a.len()] == ab[i]);
        }
    }
    if language_seen(a, rules, lang) {
        let i = choose|i: int|
            0 <= i < a.len() && is_counted(#[trigger] a[i], rules) && language_of(a[i]) == lang;
        assert(ab[i] == a[i]);
    }
    if language_seen(b, rules, lang) {
        let i = choose|i: int|
            0 <= i < b.len() && is_counted(#[trigger] b[i], rules) && language_of(b[i]) == lang;
        assert(ab[i + a.len()] == b[i]);
    }
}

/// Taking one entry out lowers a sum by what that entry added.
pub proof fn lemma_total_remove(
    entries: Seq<PathEntry>,
    i: int,
    rules: ExclusionModel,
    quantity: Quantity,
)
    requires
        0 <= i < entries.len(),
    ensures
        total(entries, rules, quantity) == total(entries.remove(i), rules, quantity) + amount(
            entries[i],
            rules,
            quantity,
        ),
{
    let head = entries.take(i);
    let tail = entries.skip(i + 1);
    assert(entries =~= (head + seq![entries[i]]) + tail);
    assert(entries.remove(i) =~= head + tail);
    lemma_total_concat(head + seq![entries[i]], tail, rules, quantity);
    lemma_total_concat(head, seq![entries[i]], rules, quantity);
    lemma_total_concat(head, tail, rules, quantity);
    assert(seq![entries[i]].drop_last() =~= Seq::<PathEntry>::empty());
    assert(total(seq![entries[i]], rules, quantity) == amount(entries[i], rules, quantity)) by {
        assert(seq![entries[i]].last() == entries[i]);
        assert(total(Seq::<PathEntry>::empty(), rules, quantity) == 0);
    }
}

/// The order in which the entries are processed does not matter: two
/// sequences that hold the same entries, each as often as the other, give
/// the same sums and the same languages.
pub proof fn lemma_order_irrelevant(
    a: Seq<PathEntry>,
    b: Seq<PathEntry>,
    rules: ExclusionModel,
    quantity: Quantity,
    lang: Language,
)
    requires
        a.to_multiset() == b.to_multiset(),
    ensures
        total(a, rules, quantity) == total(b, rules, quantity),
        language_seen(a, rules, lang) == language_seen(b, rules, lang),
    decreases a.len(),
{
    if language_seen(a, rules, lang) {
        let i = choose|i: int|
            0 <= i < a.len() && is_counted(#[trigger] a[i], rules) && language_of(a[i]) == lang;
        assert(a.contains(a[i]));
        to_multiset_contains(a, a[i]);
        to_multiset_contains(b, a[i]);
        let j = choose|j: int| 0 <= j < b.len() && b[j] == a[i];
        assert(is_counted(b[j], rules));
    }
    if language_seen(b, rules, lang) {
        let i = choose|i: int|
            0 <= i < b.len() && is_counted(#[trigger] b[i], rules) && language_of(b[i]) == lang;
        assert(b.contains(b[i]));
        to_multiset_contains(b, b[i]);
        to_multiset_contains(a, b[i]);
        let j = choose|j: int| 0 <= j < a.len() && a[j] == b[i];
        assert(is_counted(a[j], rules));
    }
    to_multiset_len(a);
    to_multiset_len(b);
    if a.len() > 0 {
        let x = a.last();
        let rest = a.drop_last();
        assert(a.contains(x));
        to_multiset_contains(a, x);
        to_multiset_contains(b, x);
        let j = choose|j: int| 0 <= j < b.len() && b[j] == x;
        assert(rest =~= a.remove(a.len() - 1));
        to_multiset_remove(a, a.len() - 1);
        to_multiset_remove(b, j);
        lemma_order_irrelevant(rest, b.remove(j), rules, quantity, lang);
        lemma_total_remove(b, j, rules, quantity);
    }
}

/// Adding one entry adds its language to those seen, if it is counted.
pub proof fn lemma_seen_push(
    entries: Seq<PathEntry>,
    entry: PathEntry,
    rules: ExclusionModel,
    lang: Language,
)
    ensures
        language_seen(entries.push(entry), rules, lang) == (language_seen(entries, rules, lang) || (
        is_counted(entry, rules) && language_of(entry) == lang)),
{
    let more = entries.push(entry);
    if language_seen(more, rules, lang) {
        let i = choose|i: int|
            0 <= i < more.len() && is_counted(#[trigger] more[i], rules) && language_of(more[i])
                == lang;
        if i < entries.len() {
            assert(entries[i] == more[i]);
        }
    }
    if language_seen(entries, rules, lang) {
        let i = choose|i: int|
            0 <= i < entries.len() && is_counted(#[trigger] entries[i], rules) && language_of(
                entries[i],
            ) == lang;
        assert(more[i] == entries[i]);
    }
    if is_counted(entry, rules) && language_of(entry) == lang {
        assert(more[entries.len() as int] == entry);
    }
}

/// The sum over the first batches is at most the sum over all.
pub proof fn lemma_joined_prefix(
    batches: Seq<Vec<PathEntry>>,
    n: int,
    rules: ExclusionModel,
    quantity: Quantity,
)
    requires
        0 <= n <= batches.len(),
    ensures
        total(joined(batches.take(n)), rules, quantity) <= total(joined(batches), rules, quantity),
    decreases batches.len() - n,
{
    if n == batches.len() {
        assert(batches.take(n) =~= batches);
    } else {
        lemma_joined_prefix(batches, n + 1, rules, quantity);
        assert(batches.take(n + 1).drop_last() =~= batches.take(n));
        lemma_total_concat(joined(batches.take(n)), batches[n]@, rules, quantity);
    }
}

/// Two aggregates that hold the counts of the same entries, in whatever
/// order and however the entries were split among workers, are the same:
/// the same totals, the same languages, and for each the same lines and the
/// same share.
pub proof fn lemma_same_entries_same_stats(
    first: Stats,
    second: Stats,
    a: Seq<PathEntry>,
    b: Seq<PathEntry>,
    rules: ExclusionModel,
)
    requires
        a.to_multiset() == b.to_multiset(),
        tallies(first, a, rules),
        first.shares_computed(),
        tallies(second, b, rules),
        second.shares_computed(),
    ensures
        first.total_loc == second.total_loc,
        first.number_of_files == second.number_of_files,
        first@ == second@,
{
    lemma_order_irrelevant(a, b, rules, Quantity::Files, Language::Other);
    lemma_order_irrelevant(a, b, rules, Quantity::Lines, Language::Other);
    assert forall|lang: Language|
        first@.contains_key(lang) == second@.contains_key(lang) && (first@.contains_key(lang)
            ==> first@[lang] == second@[lang]) by {
        lemma_order_irrelevant(a, b, rules, Quantity::LinesOf(lang), lang);
        assert(first.loc_of(lang) == second.loc_of(lang));
    }
    assert(first@ =~= second@);
}

/// Merges one entry into the aggregate, if it is counted.
pub fn count_entry(stats: &mut Stats, entry: &PathEntry, filter: &ExclusionContext)
    requires
        old(stats).wf(),
        old(stats).total_loc + amount(*entry, filter@, Quantity::Lines) <= usize::MAX,
        old(stats).number_of_files + amount(*entry, filter@, Quantity::Files) <= usize::MAX,
    ensures
        final(stats).wf(),
        final(stats).total_loc == old(stats).total_loc + amount(
            *entry,
            filter@,
            Quantity::Lines,
        ),
        final(stats).number_of_files == old(stats).number_of_files + amount(
            *entry,
            filter@,
            Quantity::Files,
        ),
        forall|lang: Language| #[trigger]
            final(stats)@.contains_key(lang) == (old(stats)@.contains_key(lang) || (is_counted(
                *entry,
                filter@,
            ) && language_of(*entry) == lang)),
        forall|lang: Language| #[trigger]
            final(stats).loc_of(lang) == old(stats).loc_of(lang) + amount(
                *entry,
                filter@,
                Quantity::LinesOf(lang),
            ),
        forall|lang: Language| #[trigger]
            final(stats).percent_of(lang) == old(stats).percent_of(lang),
{
    if !entry.is_dir && !filter.excludes(entry.path.as_slice(), false) {
        let lang: Language = match get_file_lang(entry.path.as_slice()) {
            Some(lang) => lang,
            None => Language::Other,
        };
        stats.record(lang, entry.loc);
    }
}

/// Merges the counted files among `entries` into the aggregate, one by one.
/// The shares are left as they were.
pub fn accumulate(stats: &mut Stats, entries: &Vec<PathEntry>, filter: &ExclusionContext)
    requires
        old(stats).wf(),
        old(stats).total_loc + total(entries@, filter@, Quantity::Lines) <= usize::MAX,
        old(stats).number_of_files + total(entries@, filter@, Quantity::Files) <= usize::MAX,
    ensures
        final(stats).wf(),
        final(stats).total_loc == old(stats).total_loc + total(
            entries@,
            filter@,
            Quantity::Lines,
        ),
        final(stats).number_of_files == old(stats).number_of_files + total(
            entries@,
            filter@,
            Quantity::Files,
        ),
        forall|lang: Language| #[trigger]
            final(stats)@.contains_key(lang) == (old(stats)@.contains_key(lang) || language_seen(
                entries@,
                filter@,
                lang,
            )),
        forall|lang: Language| #[trigger]
            final(stats).loc_of(lang) == old(stats).loc_of(lang) + total(
                entries@,
                filter@,
                Quantity::LinesOf(lang),
            ),
        forall|lang: Language| #[trigger]
            final(stats).percent_of(lang) == old(stats).percent_of(lang),
{
    let ghost rules = filter@;
    let mut i: usize = 0;
    proof {
        assert(entries@.take(0) =~= Seq::<PathEntry>::empty());
        assert forall|lang: Language| !language_seen(entries@.take(0), rules, lang) by {}
    }
    while i < entries.len()
        invariant
            i <= entries.len(),
            rules == filter@,
            stats.wf(),
            old(stats).total_loc + total(entries@, rules, Quantity::Lines) <= usize::MAX,
            old(stats).number_of_files + total(entries@, rules, Quantity::Files) <= usize::MAX,
            stats.total_loc == old(stats).total_loc + total(
                entries@.take(i as int),
                rules,
                Quantity::Lines,
            ),
            stats.number_of_files == old(stats).number_of_files + total(
                entries@.take(i as int),
                rules,
                Quantity::Files,
            ),
            forall|lang: Language| #[trigger]
                stats@.contains_key(lang) == (old(stats)@.contains_key(lang) || language_seen(
                    entries@.take(i as int),
                    rules,
                    lang,
                )),
            forall|lang: Language| #[trigger]
                stats.loc_of(lang) == old(stats).loc_of(lang) + total(
                    entries@.take(i as int),
                    rules,
                    Quantity::LinesOf(lang),
                ),
            forall|lang: Language| #[trigger] stats.percent_of(lang) == old(stats).percent_of(lang),
        decreases entries.len() - i,
    {
        let entry: &PathEntry = &entries[i];
        let ghost prefix = entries@.take(i as int);
        let ghost next = entries@.take(i + 1);
        let ghost before = *stats;
        proof {
            assert(next =~= prefix.push(*entry));
            assert(next.drop_last() =~= prefix);
            lemma_total_prefix(entries@, i + 1, rules, Quantity::Lines);
            lemma_total_prefix(entries@, i + 1, rules, Quantity::Files);
        }
        count_entry(stats, entry, filter);
        proof {
            assert forall|lang: Language| #[trigger]
                stats@.contains_key(lang) == (old(stats)@.contains_key(lang) || language_seen(
                    next,
                    rules,
                    lang,
                )) by {
                lemma_seen_push(prefix, *entry, rules, lang);
                assert(before@.contains_key(lang) == (old(stats)@.contains_key(lang)
                    || language_seen(prefix, rules, lang)));
            }
            assert forall|lang: Language| #[trigger]
                stats.loc_of(lang) == old(stats).loc_of(lang) + total(
                    next,
                    rules,
                    Quantity::LinesOf(lang),
                ) by {
                assert(before.loc_of(lang) == old(stats).loc_of(lang) + total(
                    prefix,
                    rules,
                    Quantity::LinesOf(lang),
                ));
            }
            assert forall|lang: Language| #[trigger]
                stats.percent_of(lang) == old(stats).percent_of(lang) by {
                assert(before.percent_of(lang) == old(stats).percent_of(lang));
            }
        }
        i += 1;
    }
    proof {
        assert(entries@.take(i as int) =~= entries@);
    }
}

/// Aggregates the entries of a walk in the order given.
pub fn get_stats_sync(entries: &Vec<PathEntry>, filter: &ExclusionContext) -> (stats: Stats)
    requires
        total(entries@, filter@, Quantity::Lines) <= usize::MAX,
    ensures
        tallies(stats, entries@, filter@),
        stats.shares_computed(),
{
    let mut stats = Stats::new();
    let count: usize = entries.len();
    proof {
        lemma_files_bound(entries@, filter@);
        assert(entries@.len() == count);
    }
    accumulate(&mut stats, entries, filter);
    stats.finalize();
    stats
}

/// Aggregates the entries of a walk that was split among workers: one batch
/// for each worker, all merged into a single accumulator. The result is that
/// of the batches' entries taken together.
pub fn get_stats_parallel(batches: &Vec<Vec<PathEntry>>, filter: &ExclusionContext) -> (stats:
    Stats)
    requires
        total(joined(batches@), filter@, Quantity::Lines) <= usize::MAX,
        total(joined(batches@), filter@, Quantity::Files) <= usize::MAX,
    ensures
        tallies(stats, joined(batches@), filter@),
        stats.shares_computed(),
{
    let ghost rules = filter@;
    let mut stats = Stats::new();
    let mut i: usize = 0;
    proof {
        assert(batches@.take(0) =~= Seq::<Vec<PathEntry>>::empty());
        assert forall|lang: Language| !language_seen(joined(batches@.take(0)), rules, lang) by {}
    }
    while i < batches.len()
        invariant
            i <= batches.len(),
            rules == filter@,
            total(joined(batches@), rules, Quantity::Lines) <= usize::MAX,
            total(joined(batches@), rules, Quantity::Files) <= usize::MAX,
            tallies(stats, joined(batches@.take(i as int)), rules),
        decreases batches.len() - i,
    {
        let ghost done = joined(batches@.take(i as int));
        let ghost batch = batches@[i as int]@;
        let ghost before = stats;
        proof {
            assert(batches@.take(i + 1).drop_last() =~= batches@.take(i as int));
            assert(joined(batches@.take(i + 1)) == done + batch);
            lemma_joined_prefix(batches@, i + 1, rules, Quantity::Lines);
            lemma_joined_prefix(batches@, i + 1, rules, Quantity::Files);
            lemma_total_concat(done, batch, rules, Quantity::Lines);
            lemma_total_concat(done, batch, rules, Quantity::Files);
        }
        accumulate(&mut stats, &batches[i], filter);
        proof {
            assert forall|lang: Language| #[trigger]
                stats@.contains_key(lang) == language_seen(done + batch, rules, lang) by {
                lemma_seen_concat(done, batch, rules, lang);
                assert(before@.contains_key(lang) == language_seen(done, rules, lang));
            }
            assert forall|lang: Language| #[trigger]
                stats.loc_of(lang) == total(done + batch, rules, Quantity::LinesOf(lang)) by {
                lemma_total_concat(done, batch, rules, Quantity::LinesOf(lang));
                assert(before.loc_of(lang) == total(done, rules, Quantity::LinesOf(lang)));
            }
        }
        i += 1;
    }
    proof {
        assert(batches@.take(i as int) =~= batches@);
    }
    let ghost counted = stats;
    stats.finalize();
    proof {
        assert forall|lang: Language| #[trigger]
            stats@.contains_key(lang) == language_seen(joined(batches@), rules, lang) by {
            assert(stats@.dom().contains(lang) == counted@.dom().contains(lang));
            assert(counted@.contains_key(lang) == language_seen(joined(batches@), rules, lang));
        }
    }
    stats
}

} // verus!
