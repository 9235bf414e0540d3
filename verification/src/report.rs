//! What a textual summary needs beyond the aggregate itself: the languages
//! ranked by their lines, and the widths of the table's columns.

use crate::langs::Language;
use crate::stats::LangEntry;
use crate::stats::Stats;
use vstd::prelude::*;
use vstd::seq_lib::to_multiset_build;
use vstd::seq_lib::to_multiset_insert;
use vstd::string::StrSliceExecFns;

verus! {

/// Whether the entries are in order of falling line counts.
pub open spec fn descending(entries: Seq<LangEntry>) -> bool {
    forall|i: int, j: int| 0 <= i < j < entries.len() ==> entries[i].stat.loc >= entries[j].stat.loc
}

/// The number of decimal digits of `n`.
pub open spec fn decimal_digits(n: nat) -> nat
    decreases n,
{
    if n < 10 {
        1
    } else {
        1 + decimal_digits(n / 10)
    }
}

/// The width of the widest language name among the entries, in characters.
pub open spec fn widest_name(entries: Seq<LangEntry>) -> nat
    decreases entries.len(),
{
    if entries.len() == 0 {
        0
    } else {
        let rest = widest_name(entries.drop_last());
        let last = entries.last().lang.name_spec().len();
        if last > rest {
            last
        } else {
            rest
        }
    }
}

/// The width of the widest line count among the entries, in digits.
pub open spec fn widest_loc(entries: Seq<LangEntry>) -> nat
    decreases entries.len(),
{
    if entries.len() == 0 {
        0
    } else {
        let rest = widest_loc(entries.drop_last());
        let last = decimal_digits(entries.last().stat.loc as nat);
        if last > rest {
            last
        } else {
            rest
        }
    }
}

/// Counts the decimal digits of `n`.
pub fn decimal_width(n: usize) -> (width: usize)
    ensures
        width == decimal_digits(n as nat),
{
    let mut width: usize = 1;
    let mut rest: usize = n;
    while rest >= 10
        invariant
            decimal_digits(n as nat) == width - 1 + decimal_digits(rest as nat),
            1 <= width,
            width + rest <= n + 1,
        decreases rest,
    {
        rest = rest / 10;
        width += 1;
    }
    width
}

/// The width of a language's name, in characters.
pub fn name_width(lang: Language) -> (width: usize)
    ensures
        width == lang.name_spec().len(),
{
    lang.name().unicode_len()
}

/// The widths of the name column and of the line-count column: those of the
/// widest name and the widest count, zero for an empty aggregate.
pub fn column_widths(stats: &Stats) -> (widths: (usize, usize))
    ensures
        widths.0 == widest_name(stats.by_lang@),
        widths.1 == widest_loc(stats.by_lang@),
{
    let mut names: usize = 0;
    let mut locs: usize = 0;
    let mut i: usize = 0;
    while i < stats.by_lang.len()
        invariant
            i <= stats.by_lang.len(),
            names == widest_name(stats.by_lang@.take(i as int)),
            locs == widest_loc(stats.by_lang@.take(i as int)),
        decreases stats.by_lang.len() - i,
    {
        proof {
            assert(stats.by_lang@.take(i + 1).drop_last() =~= stats.by_lang@.take(i as int));
        }
        let entry: LangEntry = stats.by_lang[i];
        let name: usize = name_width(entry.lang);
        let loc: usize = decimal_width(entry.stat.loc);
        if name > names {
            names = name;
        }
        if loc > locs {
            locs = loc;
        }
        i += 1;
    }
    proof {
        assert(stats.by_lang@.take(i as int) =~= stats.by_lang@);
    }
    (names, locs)
}

/// The languages of the aggregate in order of falling line counts: the same
/// entries, each once, the largest first.
pub fn ranking(stats: &Stats) -> (ranked: Vec<LangEntry>)
    ensures
        descending(ranked@),
        ranked@.to_multiset() == stats.by_lang@.to_multiset(),
{
    let mut ranked: Vec<LangEntry> = Vec::new();
    let mut k: usize = 0;
    proof {
        assert(stats.by_lang@.take(0) =~= ranked@);
    }
    while k < stats.by_lang.len()
        invariant
            k <= stats.by_lang.len(),
            descending(ranked@),
            ranked@.to_multiset() == stats.by_lang@.take(k as int).to_multiset(),
        decreases stats.by_lang.len() - k,
    {
        let entry: LangEntry = stats.by_lang[k];
        let mut at: usize = 0;
        while at < ranked.len() && ranked[at].stat.loc >= entry.stat.loc
            invariant
                at <= ranked.len(),
                forall|j: int| 0 <= j < at ==> ranked[j].stat.loc >= entry.stat.loc,
            decreases ranked.len() - at,
        {
            at += 1;
        }
        let ghost before = ranked@;
        ranked.insert(at, entry);
        proof {
            to_multiset_insert(before, at as int, entry);
            to_multiset_build(stats.by_lang@.take(k as int), entry);
            assert(stats.by_lang@.take(k + 1) =~= stats.by_lang@.take(k as int).push(entry));
            let after = ranked@;
            assert forall|i: int, j: int| 0 <= i < j < after.len() implies after[i].stat.loc
                >= after[j].stat.loc by {
                if j < at {
                    assert(after[i] == before[i] && after[j] == before[j]);
                } else if j == at {
                    assert(after[i] == before[i]);
                } else if i < at {
                    assert(after[i] == before[i] && after[j] == before[j - 1]);
                    if at < before.len() {
                        assert(before[at as int].stat.loc >= before[j - 1].stat.loc || at == j - 1);
                    }
                } else if i == at {
                    assert(after[j] == before[j - 1]);
                    assert(before[at as int].stat.loc >= before[j - 1].stat.loc || at == j - 1);
                } else {
                    assert(after[i] == before[i - 1] && after[j] == before[j - 1]);
                }
            }
        }
        k += 1;
    }
    proof {
        assert(stats.by_lang@.take(k as int) =~= stats.by_lang@);
    }
    ranked
}

} // verus!
