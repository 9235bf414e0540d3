//! The aggregate: total line count, file count, and for each language its
//! line count and its share of the total.

use crate::langs::Language;
use vstd::prelude::*;

verus! {

/// What is known of one language: its lines, and its share of all lines in
/// hundredths of a percent (`6666` stands for 66.66 %).
#[derive(Clone, Copy, Debug, PartialEq, Eq, Structural)]
pub struct LangStat {
    pub loc: usize,
    pub percent_hundredths: u32,
}

impl Default for LangStat {
    fn default() -> (stat: Self)
        ensures
            stat == (LangStat { loc: 0, percent_hundredths: 0 }),
    {
        LangStat { loc: 0, percent_hundredths: 0 }
    }
}

/// One language together with its statistics.
#[derive(Clone, Copy, Debug, PartialEq, Eq, Structural)]
pub struct LangEntry {
    pub lang: Language,
    pub stat: LangStat,
}

/// The aggregate result. `by_lang` holds each language at most once, in no
/// particular order; its mathematical model is the map `self@`.
#[derive(Debug)]
pub struct Stats {
    pub total_loc: usize,
    pub number_of_files: usize,
    pub by_lang: Vec<LangEntry>,
}

/// The share of `loc` in `total`, in hundredths of a percent, truncated
/// toward zero. With nothing counted the share is zero.
pub open spec fn share_hundredths(loc: nat, total: nat) -> nat {
    if total == 0 {
        0
    } else {
        loc * 10000 / total
    }
}

/// The lines of all entries together.
pub open spec fn sum_loc(entries: Seq<LangEntry>) -> nat
    decreases entries.len(),
{
    if entries.len() == 0 {
        0
    } else {
        sum_loc(entries.drop_last()) + entries.last().stat.loc as nat
    }
}

/// No language has two entries.
pub open spec fn distinct_languages(entries: Seq<LangEntry>) -> bool {
    forall|i: int, j: int| 0 <= i < j < entries.len() ==> entries[i].lang != entries[j].lang
}

/// Whether some entry is about `lang`.
pub open spec fn has_language(entries: Seq<LangEntry>, lang: Language) -> bool {
    exists|i: int| 0 <= i < entries.len() && entries[i].lang == lang
}

/// The entries as a map from language to statistics.
pub open spec fn entries_map(entries: Seq<LangEntry>) -> Map<Language, LangStat> {
    Map::new(
        |lang: Language| has_language(entries, lang),
        |lang: Language|
            entries[choose|i: int| 0 <= i < entries.len() && entries[i].lang == lang].stat,
    )
}

/// With distinct languages, every entry is what the map holds for its
/// language.
pub proof fn lemma_entries_map_at(entries: Seq<LangEntry>, i: int)
    requires
        distinct_languages(entries),
        0 <= i < entries.len(),
    ensures
        entries_map(entries).contains_key(entries[i].lang),
        entries_map(entries)[entries[i].lang] == entries[i].stat,
{
    let lang = entries[i].lang;
    let k = choose|k: int| 0 <= k < entries.len() && entries[k].lang == lang;
    if k < i {
        assert(entries[k].lang != entries[i].lang);
    } else if i < k {
        assert(entries[i].lang != entries[k].lang);
    }
}

/// No entry has more lines than all entries together.
pub proof fn lemma_loc_within_sum(entries: Seq<LangEntry>, i: int)
    requires
        0 <= i < entries.len(),
    ensures
        entries[i].stat.loc <= sum_loc(entries),
    decreases entries.len(),
{
    if i < entries.len() - 1 {
        lemma_loc_within_sum(entries.drop_last(), i);
    }
}

/// Replacing one entry changes the sum by the difference of the two.
pub proof fn lemma_sum_loc_update(entries: Seq<LangEntry>, i: int, entry: LangEntry)
    requires
        0 <= i < entries.len(),
    ensures
        sum_loc(entries.update(i, entry)) + entries[i].stat.loc == sum_loc(entries)
            + entry.stat.loc,
    decreases entries.len(),
{
    let updated = entries.update(i, entry);
    if i == entries.len() - 1 {
        assert(updated.drop_last() =~= entries.drop_last());
    } else {
        assert(updated.drop_last() =~= entries.drop_last().update(i, entry));
        lemma_sum_loc_update(entries.drop_last(), i, entry);
    }
}

/// A share never exceeds one hundred percent.
pub proof fn lemma_share_bound(loc: nat, total: nat)
    requires
        loc <= total,
    ensures
        share_hundredths(loc, total) <= 10000,
{
    if total > 0 {
        assert(loc * 10000 / total <= 10000) by (nonlinear_arith)
            requires
                loc <= total,
                total > 0,
        ;
    }
}

/// The shares of all entries together, in hundredths of a percent.
pub open spec fn sum_shares(entries: Seq<LangEntry>) -> nat
    decreases entries.len(),
{
    if entries.len() == 0 {
        0
    } else {
        sum_shares(entries.drop_last()) + entries.last().stat.percent_hundredths as nat
    }
}

/// Whether every entry's share is the one its lines give it in `total`.
pub open spec fn shares_match(entries: Seq<LangEntry>, total: nat) -> bool {
    forall|i: int|
        0 <= i < entries.len() ==> (#[trigger] entries[i]).stat.percent_hundredths
            == share_hundredths(entries[i].stat.loc as nat, total)
}

/// Truncation loses less than one hundredth of a percent for each entry:
/// scaled by the total, the shares lie between the lines' own share and
/// that minus one hundredth for each entry.
pub proof fn lemma_shares_near_lines(entries: Seq<LangEntry>, total: nat)
    requires
        total > 0,
        shares_match(entries, total),
    ensures
        sum_shares(entries) * total <= sum_loc(entries) * 10000,
        sum_loc(entries) * 10000 <= sum_shares(entries) * total + entries.len() * total,
        entries.len() > 0 ==> sum_loc(entries) * 10000 < sum_shares(entries) * total
            + entries.len() * total,
    decreases entries.len(),
{
    if entries.len() > 0 {
        let rest = entries.drop_last();
        let last = entries.last();
        assert(shares_match(rest, total)) by {
            assert forall|i: int| 0 <= i < rest.len() implies (#[trigger] rest[i]).stat
                .percent_hundredths == share_hundredths(rest[i].stat.loc as nat, total) by {
                assert(rest[i] == entries[i]);
            }
        }
        lemma_shares_near_lines(rest, total);
        let loc = last.stat.loc as nat;
        let share = last.stat.percent_hundredths as nat;
        assert(share == loc * 10000 / total);
        assert(share * total <= loc * 10000 < share * total + total) by (nonlinear_arith)
            requires
                total > 0,
                share == loc * 10000 / total,
        ;
        let a = sum_shares(rest);
        let b = sum_loc(rest);
        let n = rest.len();
        assert((a + share) * total == a * total + share * total) by (nonlinear_arith);
        assert((b + loc) * 10000 == b * 10000 + loc * 10000) by (nonlinear_arith);
        assert((n + 1) * total == n * total + total) by (nonlinear_arith);
    }
}

/// Computes the share of `loc` in `total`, in hundredths of a percent.
pub fn percent_hundredths(loc: usize, total: usize) -> (share: u32)
    requires
        loc <= total,
    ensures
        share == share_hundredths(loc as nat, total as nat),
{
    if total == 0 {
        return 0;
    }
    proof {
        lemma_share_bound(loc as nat, total as nat);
        assert(loc * 10000 <= u128::MAX) by (nonlinear_arith)
            requires
                loc <= u64::MAX,
        ;
    }
    let scaled: u128 = (loc as u128) * 10000u128;
    let share: u128 = scaled / (total as u128);
    share as u32
}

fn position(entries: &Vec<LangEntry>, lang: Language) -> (found: Option<usize>)
    ensures
        match found {
            Some(i) => i < entries.len() && entries[i as int].lang == lang,
            None => !has_language(entries@, lang),
        },
{
    let mut i: usize = 0;
    while i < entries.len()
        invariant
            i <= entries.len(),
            forall|j: int| 0 <= j < i ==> entries[j].lang != lang,
        decreases entries.len() - i,
    {
        if entries[i].lang == lang {
            return Some(i);
        }
        i += 1;
    }
    None
}

impl View for Stats {
    type V = Map<Language, LangStat>;

    open spec fn view(&self) -> Map<Language, LangStat> {
        entries_map(self.by_lang@)
    }
}

impl Stats {
    /// The invariant of the aggregate: every language occurs once, and the
    /// total is the sum of the languages' lines.
    pub open spec fn wf(&self) -> bool {
        &&& distinct_languages(self.by_lang@)
        &&& self.total_loc == sum_loc(self.by_lang@)
    }

    /// The lines attributed to `lang` so far.
    pub open spec fn loc_of(&self, lang: Language) -> nat {
        if self@.contains_key(lang) {
            self@[lang].loc as nat
        } else {
            0
        }
    }

    /// The share recorded for `lang`; zero until it is computed.
    pub open spec fn percent_of(&self, lang: Language) -> u32 {
        if self@.contains_key(lang) {
            self@[lang].percent_hundredths
        } else {
            0
        }
    }

    /// Whether every language's share is the one its lines give it.
    pub open spec fn shares_computed(&self) -> bool {
        forall|lang: Language| #[trigger]
            self@.contains_key(lang) ==> self@[lang].percent_hundredths == share_hundredths(
                self@[lang].loc as nat,
                self.total_loc as nat,
            )
    }

    /// The empty aggregate.
    pub fn new() -> (stats: Self)
        ensures
            stats.wf(),
            stats.total_loc == 0,
            stats.number_of_files == 0,
            stats.by_lang@.len() == 0,
            stats@ == Map::<Language, LangStat>::empty(),
    {
        let stats = Stats { total_loc: 0, number_of_files: 0, by_lang: Vec::new() };
        proof {
            assert(stats@ =~= Map::<Language, LangStat>::empty());
        }
        stats
    }

    /// The statistics of one language, if any file of it was counted.
    pub fn get(&self, lang: Language) -> (stat: Option<LangStat>)
        requires
            self.wf(),
        ensures
            stat == if self@.contains_key(lang) {
                Some(self@[lang])
            } else {
                None
            },
    {
        match position(&self.by_lang, lang) {
            Some(i) => {
                proof {
                    lemma_entries_map_at(self.by_lang@, i as int);
                }
                Some(self.by_lang[i].stat)
            },
            None => None,
        }
    }

    /// Merges one counted file into the aggregate: a file of language `lang`
    /// with `loc` lines. The share of the language is left as it was (zero
    /// for a new language) until `finalize` computes it.
    pub fn record(&mut self, lang: Language, loc: usize)
        requires
            old(self).wf(),
            old(self).total_loc + loc <= usize::MAX,
            old(self).number_of_files < usize::MAX,
        ensures
            final(self).wf(),
            final(self).total_loc == old(self).total_loc + loc,
            final(self).number_of_files == old(self).number_of_files + 1,
            old(self).loc_of(lang) + loc <= final(self).total_loc,
            final(self)@ == old(self)@.insert(
                lang,
                (LangStat {
                    loc: (old(self).loc_of(lang) + loc) as usize,
                    percent_hundredths: old(self).percent_of(lang),
                }),
            ),
    {
        let ghost before = self.by_lang@;
        match position(&self.by_lang, lang) {
            Some(i) => {
                let entry: LangEntry = self.by_lang[i];
                proof {
                    lemma_loc_within_sum(before, i as int);
                    lemma_entries_map_at(before, i as int);
                }
                let merged = LangEntry {
                    lang,
                    stat: LangStat {
                        loc: entry.stat.loc + loc,
                        percent_hundredths: entry.stat.percent_hundredths,
                    },
                };
                self.by_lang.set(i, merged);
                proof {
                    lemma_sum_loc_update(before, i as int, merged);
                    let after = self.by_lang@;
                    assert(distinct_languages(after));
                    assert forall|l: Language| #[trigger]
                        entries_map(after).contains_key(l) == entries_map(before).insert(
                            lang,
                            merged.stat,
                        ).contains_key(l) by {
                        if has_language(after, l) {
                            let k = choose|k: int| 0 <= k < after.len() && after[k].lang == l;
                            assert(before[k].lang == l);
                        }
                        if has_language(before, l) {
                            let k = choose|k: int| 0 <= k < before.len() && before[k].lang == l;
                            assert(after[k].lang == l);
                        }
                        assert(after[i as int].lang == lang);
                    }
                    assert forall|l: Language| #[trigger]
                        entries_map(after).contains_key(l) implies entries_map(after)[l]
                        == entries_map(before).insert(lang, merged.stat)[l] by {
                        let k = choose|k: int| 0 <= k < after.len() && after[k].lang == l;
                        lemma_entries_map_at(after, k);
                        if k != i {
                            lemma_entries_map_at(before, k);
                        }
                    }
                    assert(entries_map(after) =~= entries_map(before).insert(lang, merged.stat));
                }
            },
            None => {
                let fresh = LangEntry { lang, stat: LangStat { loc, percent_hundredths: 0 } };
                self.by_lang.push(fresh);
                proof {
                    let after = self.by_lang@;
                    assert(after.drop_last() =~= before);
                    assert(distinct_languages(after)) by {
                        assert forall|a: int, b: int| 0 <= a < b < after.len() implies after[a].lang
                            != after[b].lang by {
                            if b == before.len() {
                                assert(before[a].lang != lang);
                            }
                        }
                    }
                    assert forall|l: Language| #[trigger]
                        entries_map(after).contains_key(l) == entries_map(before).insert(
                            lang,
                            fresh.stat,
                        ).contains_key(l) by {
                        if has_language(after, l) {
                            let k = choose|k: int| 0 <= k < after.len() && after[k].lang == l;
                            if k < before.len() {
                                assert(before[k].lang == l);
                            }
                        }
                        if has_language(before, l) {
                            let k = choose|k: int| 0 <= k < before.len() && before[k].lang == l;
                            assert(after[k].lang == l);
                        }
                        assert(after[before.len() as int].lang == lang);
                    }
                    assert forall|l: Language| #[trigger]
                        entries_map(after).contains_key(l) implies entries_map(after)[l]
                        == entries_map(before).insert(lang, fresh.stat)[l] by {
                        let k = choose|k: int| 0 <= k < after.len() && after[k].lang == l;
                        lemma_entries_map_at(after, k);
                        if k < before.len() {
                            lemma_entries_map_at(before, k);
                        }
                    }
                    assert(entries_map(after) =~= entries_map(before).insert(lang, fresh.stat));
                }
            },
        }
        self.total_loc += loc;
        self.number_of_files += 1;
    }

    /// Computes every language's share of the total, truncated to hundredths
    /// of a percent. Totals, languages and line counts stay as they are.
    pub fn finalize(&mut self)
        requires
            old(self).wf(),
        ensures
            final(self).wf(),
            final(self).shares_computed(),
            final(self).total_loc == old(self).total_loc,
            final(self).number_of_files == old(self).number_of_files,
            final(self)@.dom() == old(self)@.dom(),
            forall|lang: Language| #[trigger]
                final(self).loc_of(lang) == old(self).loc_of(lang),
    {
        let ghost before = self.by_lang@;
        let total: usize = self.total_loc;
        let mut i: usize = 0;
        while i < self.by_lang.len()
            invariant
                i <= self.by_lang.len(),
                self.by_lang.len() == before.len(),
                self.total_loc == total,
                self.number_of_files == old(self).number_of_files,
                distinct_languages(before),
                total == sum_loc(before),
                total == sum_loc(self.by_lang@),
                forall|j: int|
                    0 <= j < before.len() ==> (#[trigger] self.by_lang[j]).lang == before[j].lang
                        && self.by_lang[j].stat.loc == before[j].stat.loc,
                forall|j: int|
                    0 <= j < i ==> (#[trigger] self.by_lang[j]).stat.percent_hundredths
                        == share_hundredths(before[j].stat.loc as nat, total as nat),
            decreases self.by_lang.len() - i,
        {
            let entry: LangEntry = self.by_lang[i];
            let ghost current = self.by_lang@;
            proof {
                lemma_loc_within_sum(current, i as int);
            }
            let share: u32 = percent_hundredths(entry.stat.loc, total);
            let computed = LangEntry {
                lang: entry.lang,
                stat: LangStat { loc: entry.stat.loc, percent_hundredths: share },
            };
            self.by_lang.set(i, computed);
            proof {
                lemma_sum_loc_update(current, i as int, computed);
            }
            i += 1;
        }
        proof {
            let after = self.by_lang@;
            assert(distinct_languages(after)) by {
                assert forall|a: int, b: int| 0 <= a < b < after.len() implies after[a].lang
                    != after[b].lang by {
                    assert(before[a].lang != before[b].lang);
                }
            }
            assert forall|l: Language|
                entries_map(after).contains_key(l) == entries_map(before).contains_key(l) by {
                if has_language(after, l) {
                    let k = choose|k: int| 0 <= k < after.len() && after[k].lang == l;
                    assert(before[k].lang == l);
                }
                if has_language(before, l) {
                    let k = choose|k: int| 0 <= k < before.len() && before[k].lang == l;
                    assert(after[k].lang == l);
                }
            }
            assert(entries_map(after).dom() =~= entries_map(before).dom());
            assert forall|l: Language| #[trigger]
                entries_map(after).contains_key(l) implies entries_map(after)[l].loc
                == entries_map(before)[l].loc && entries_map(after)[l].percent_hundredths
                == share_hundredths(entries_map(after)[l].loc as nat, total as nat) by {
                let k = choose|k: int| 0 <= k < after.len() && after[k].lang == l;
                lemma_entries_map_at(after, k);
                lemma_entries_map_at(before, k);
            }
        }
    }
}

/// Once the shares are computed for counted lines, they add up to one
/// hundred percent but for what truncation took: less than a hundredth of a
/// percent for each language.
pub proof fn lemma_shares_add_up(stats: Stats)
    requires
        stats.wf(),
        stats.shares_computed(),
        stats.total_loc > 0,
    ensures
        sum_shares(stats.by_lang@) <= 10000,
        10000 < sum_shares(stats.by_lang@) + stats.by_lang@.len(),
{
    let entries = stats.by_lang@;
    let total = stats.total_loc as nat;
    assert(shares_match(entries, total)) by {
        assert forall|i: int| 0 <= i < entries.len() implies (#[trigger] entries[i]).stat
            .percent_hundredths == share_hundredths(entries[i].stat.loc as nat, total) by {
            lemma_entries_map_at(entries, i);
            assert(stats@.contains_key(entries[i].lang));
            assert(stats@[entries[i].lang] == entries[i].stat);
        }
    }
    lemma_shares_near_lines(entries, total);
    let shares = sum_shares(entries);
    let n = entries.len();
    assert(entries.len() > 0) by {
        if entries.len() == 0 {
            assert(sum_loc(entries) == 0);
        }
    }
    assert(shares <= 10000 && 10000 < shares + n) by (nonlinear_arith)
        requires
            total > 0,
            shares * total <= total * 10000,
            total * 10000 < shares * total + n * total,
    ;
}

impl Default for Stats {
    fn default() -> (stats: Self)
        ensures
            stats.wf(),
            stats.total_loc == 0,
            stats.number_of_files == 0,
            stats@ == Map::<Language, LangStat>::empty(),
    {
        Stats::new()
    }
}

} // verus!
