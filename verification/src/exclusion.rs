//! The exclusion filter: which paths take no part in the count.
//!
//! Paths are byte strings relative to the root of the walk, with `/` between
//! their components; the root itself is `.`, and a leading `./` is not part
//! of a path's name. One of two strategies is chosen once, before the walk:
//! membership in the set of indexed files, or matching against the patterns
//! of an ignore file. The patterns are a small subset of the usual ignore
//! syntax: no negation, no directory-only patterns, and `*` as the one
//! wildcard, for any run of bytes.

use crate::bytes::bytes_eq;
use crate::bytes::has_prefix;
use crate::bytes::starts_with;
use crate::get_stats::GetStatsOptions;
use crate::langs::DOT;
use crate::langs::SLASH;
use crate::lines::NEWLINE;
use vstd::prelude::*;
use vstd::slice::slice_subrange;
use vstd::slice::slice_to_vec;

verus! {

/// The wildcard of a pattern.
pub const STAR: u8 = 0x2A;

/// The byte that begins a comment line of an ignore file.
pub const HASH: u8 = 0x23;

/// One line of an ignore file. An anchored pattern is matched at the start
/// of a path, any other anywhere in it.
#[derive(Debug)]
pub struct Pattern {
    pub anchored: bool,
    pub glob: Vec<u8>,
}

/// The mathematical model of a pattern.
pub struct PatternModel {
    pub anchored: bool,
    pub glob: Seq<u8>,
}

impl View for Pattern {
    type V = PatternModel;

    open spec fn view(&self) -> PatternModel {
        PatternModel { anchored: self.anchored, glob: self.glob@ }
    }
}

/// The models of a sequence of patterns, in order.
pub open spec fn pattern_models(patterns: Seq<Pattern>) -> Seq<PatternModel> {
    patterns.map_values(|p: Pattern| p@)
}

/// The views of a sequence of paths, in order.
pub open spec fn path_views(paths: Seq<Vec<u8>>) -> Seq<Seq<u8>> {
    paths.map_values(|p: Vec<u8>| p@)
}

/// Whether the path is the root of the walk.
pub open spec fn is_root(path: Seq<u8>) -> bool {
    path == seq![DOT]
}

/// The path without a leading `./`.
pub open spec fn relative(path: Seq<u8>) -> Seq<u8> {
    if has_prefix(path, seq![DOT, SLASH]) {
        path.skip(2)
    } else {
        path
    }
}

/// Whether the glob, read from position `g`, matches some prefix of the text
/// read from position `t`. A `*` stands for any run of bytes, every other
/// byte for itself.
pub open spec fn glob_matches_at(glob: Seq<u8>, g: int, text: Seq<u8>, t: int) -> bool
    decreases glob.len() - g, text.len() - t,
{
    if g < 0 || t < 0 || g >= glob.len() {
        true
    } else if glob[g] == STAR {
        glob_matches_at(glob, g + 1, text, t) || (t < text.len() && glob_matches_at(
            glob,
            g,
            text,
            t + 1,
        ))
    } else {
        t < text.len() && text[t] == glob[g] && glob_matches_at(glob, g + 1, text, t + 1)
    }
}

/// Whether a pattern matches a relative path. The empty pattern matches
/// nothing.
pub open spec fn pattern_matches(pattern: PatternModel, path: Seq<u8>) -> bool {
    &&& pattern.glob.len() > 0
    &&& if pattern.anchored {
        glob_matches_at(pattern.glob, 0, path, 0)
    } else {
        exists|t: int| 0 <= t <= path.len() && glob_matches_at(pattern.glob, 0, path, t)
    }
}

/// Whether some pattern of the sequence matches the relative path.
pub open spec fn any_pattern_matches(patterns: Seq<PatternModel>, path: Seq<u8>) -> bool {
    exists|i: int| 0 <= i < patterns.len() && pattern_matches(patterns[i], path)
}

/// Whether the relative path `file` lies below the directory `dir`.
pub open spec fn lies_below(file: Seq<u8>, dir: Seq<u8>) -> bool {
    has_prefix(file, dir.push(SLASH))
}

/// Whether the indexed set holds the file at `path`.
pub open spec fn is_indexed_file(indexed: Seq<Seq<u8>>, path: Seq<u8>) -> bool {
    exists|i: int| 0 <= i < indexed.len() && relative(indexed[i]) == relative(path)
}

/// Whether the indexed set holds a file below the directory at `path`.
pub open spec fn holds_indexed_file(indexed: Seq<Seq<u8>>, path: Seq<u8>) -> bool {
    exists|i: int| 0 <= i < indexed.len() && lies_below(relative(indexed[i]), relative(path))
}

/// The byte that ends a name in a listing of indexed files.
pub const NUL: u8 = 0x00;

/// The number of bytes before the first separator, or the whole length
/// where there is none.
pub open spec fn first_field_len(content: Seq<u8>, separator: u8) -> nat
    decreases content.len(),
{
    if content.len() == 0 || content[0] == separator {
        0
    } else {
        1 + first_field_len(content.skip(1), separator)
    }
}

/// The names in a listing of indexed files: what stands between the `NUL`
/// bytes, in order, without the empty names.
pub open spec fn listed_paths(listing: Seq<u8>) -> Seq<Seq<u8>>
    decreases listing.len(),
{
    if listing.len() == 0 {
        Seq::empty()
    } else {
        let n = first_field_len(listing, NUL) as int;
        let rest = if n < listing.len() {
            listed_paths(listing.skip(n + 1))
        } else {
            Seq::empty()
        };
        if n == 0 {
            rest
        } else {
            seq![listing.take(n)] + rest
        }
    }
}

/// What one line of an ignore file says: nothing if it is empty or a
/// comment, else a pattern, anchored if the line begins with `/`, which is
/// then not part of the glob.
pub open spec fn line_pattern(line: Seq<u8>) -> Option<PatternModel> {
    if line.len() == 0 || line[0] == HASH {
        None
    } else if line[0] == SLASH {
        Some(PatternModel { anchored: true, glob: line.skip(1) })
    } else {
        Some(PatternModel { anchored: false, glob: line })
    }
}

/// The patterns of an ignore file, in the order of its lines.
pub open spec fn ignore_patterns(content: Seq<u8>) -> Seq<PatternModel>
    decreases content.len(),
{
    if content.len() == 0 {
        Seq::empty()
    } else {
        let n = first_field_len(content, NEWLINE) as int;
        let rest = if n < content.len() {
            ignore_patterns(content.skip(n + 1))
        } else {
            Seq::empty()
        };
        match line_pattern(content.take(n)) {
            Some(pattern) => seq![pattern] + rest,
            None => rest,
        }
    }
}

/// A field ends at the first separator after its start.
pub proof fn lemma_first_field_len(content: Seq<u8>, separator: u8, n: int)
    requires
        0 <= n <= content.len(),
        forall|j: int| 0 <= j < n ==> content[j] != separator,
        n == content.len() || content[n] == separator,
    ensures
        first_field_len(content, separator) == n,
    decreases n,
{
    if n > 0 {
        lemma_first_field_len(content.skip(1), separator, n - 1);
    }
}

/// The exclusion rules of one run.
#[derive(Debug)]
pub enum ExclusionContext {
    /// Nothing is excluded.
    Disabled,
    /// A file is included if and only if it is one of these indexed files; a
    /// directory, if one of them lies below it.
    Indexed(Vec<Vec<u8>>),
    /// A path is excluded if and only if one of these patterns matches it.
    Patterns(Vec<Pattern>),
}

/// The mathematical model of the exclusion rules.
pub enum ExclusionModel {
    Disabled,
    Indexed(Seq<Seq<u8>>),
    Patterns(Seq<PatternModel>),
}

impl View for ExclusionContext {
    type V = ExclusionModel;

    open spec fn view(&self) -> ExclusionModel {
        match self {
            ExclusionContext::Disabled => ExclusionModel::Disabled,
            ExclusionContext::Indexed(paths) => ExclusionModel::Indexed(path_views(paths@)),
            ExclusionContext::Patterns(patterns) => ExclusionModel::Patterns(
                pattern_models(patterns@),
            ),
        }
    }
}

/// Whether the rules exclude a path. The root is never excluded.
pub open spec fn excluded(rules: ExclusionModel, path: Seq<u8>, is_dir: bool) -> bool {
    if is_root(path) {
        false
    } else {
        match rules {
            ExclusionModel::Disabled => false,
            ExclusionModel::Indexed(indexed) => if is_dir {
                !holds_indexed_file(indexed, path)
            } else {
                !is_indexed_file(indexed, path)
            },
            ExclusionModel::Patterns(patterns) => any_pattern_matches(patterns, relative(path)),
        }
    }
}

/// The rules that a run is made with: none where exclusion is switched off,
/// the indexed set where one was obtained, else the patterns of the ignore
/// file's content (empty where there is no such file).
pub open spec fn chosen_rules(
    gitignore: bool,
    indexed: Option<Seq<Seq<u8>>>,
    ignore_file: Seq<u8>,
) -> ExclusionModel {
    if !gitignore {
        ExclusionModel::Disabled
    } else {
        match indexed {
            Some(paths) => ExclusionModel::Indexed(paths),
            None => ExclusionModel::Patterns(ignore_patterns(ignore_file)),
        }
    }
}

/// With exclusion switched off, neither the ignore file nor the indexed set
/// has any effect: every path is included.
pub proof fn lemma_disabled_excludes_nothing(
    indexed: Option<Seq<Seq<u8>>>,
    ignore_file: Seq<u8>,
    path: Seq<u8>,
    is_dir: bool,
)
    ensures
        !excluded(chosen_rules(false, indexed, ignore_file), path, is_dir),
{
}

/// A glob without a wildcard matches exactly where the text continues with
/// the glob itself: such a pattern is a plain substring search.
pub proof fn lemma_literal_glob(glob: Seq<u8>, g: int, text: Seq<u8>, t: int)
    requires
        0 <= g <= glob.len(),
        0 <= t <= text.len(),
        forall|j: int| g <= j < glob.len() ==> glob[j] != STAR,
    ensures
        glob_matches_at(glob, g, text, t) == (glob.len() - g <= text.len() - t && text.subrange(
            t,
            t + glob.len() - g,
        ) == glob.skip(g)),
    decreases glob.len() - g,
{
    if g < glob.len() {
        if t < text.len() {
            lemma_literal_glob(glob, g + 1, text, t + 1);
            if glob.len() - g <= text.len() - t {
                let a = text.subrange(t, t + glob.len() - g);
                let b = glob.skip(g);
                let a1 = text.subrange(t + 1, t + 1 + glob.len() - (g + 1));
                let b1 = glob.skip(g + 1);
                assert(a[0] == text[t]);
                assert(b[0] == glob[g]);
                assert(a1 =~= a.skip(1));
                assert(b1 =~= b.skip(1));
                if a1 == b1 && text[t] == glob[g] {
                    assert forall|i: int| 0 <= i < a.len() implies a[i] == b[i] by {
                        if i > 0 {
                            assert(a[i] == a1[i - 1]);
                            assert(b[i] == b1[i - 1]);
                        }
                    }
                    assert(a =~= b);
                }
            }
        }
    } else {
        assert(text.subrange(t, t + 0) =~= glob.skip(g));
    }
}

/// The path without a leading `./`.
pub fn strip_dot_slash(path: &[u8]) -> (rest: &[u8])
    ensures
        rest@ == relative(path@),
{
    if path.len() >= 2 && path[0] == DOT && path[1] == SLASH {
        proof {
            assert(path@.take(2) =~= seq![DOT, SLASH]);
        }
        slice_subrange(path, 2, path.len())
    } else {
        proof {
            if path.len() >= 2 {
                assert(path@.take(2)[0] == path@[0]);
                assert(path@.take(2)[1] == path@[1]);
                assert(seq![DOT, SLASH][0] == DOT);
                assert(seq![DOT, SLASH][1] == SLASH);
            }
        }
        path
    }
}

/// Finds every place where the glob matches: the result has an element for
/// each position of the text, the end included, which says whether the glob
/// matches a prefix of what begins there. The work is one pass over the text
/// for each byte of the glob, whatever the wildcards.
pub fn match_starts(glob: &[u8], text: &[u8]) -> (starts: Vec<bool>)
    ensures
        starts@.len() == text@.len() + 1,
        forall|t: int|
            0 <= t <= text@.len() ==> starts@[t] == glob_matches_at(glob@, 0, text@, t),
{
    let n: usize = text.len();
    let mut row: Vec<bool> = Vec::new();
    row.push(true);
    let mut filled: usize = 0;
    while filled < n
        invariant
            filled <= n,
            row@.len() == filled + 1,
            forall|t: int| 0 <= t <= filled ==> row@[t],
        decreases n - filled,
    {
        row.push(true);
        filled += 1;
    }
    let mut g: usize = glob.len();
    while g > 0
        invariant
            g <= glob.len(),
            n == text.len(),
            row@.len() == n + 1,
            forall|t: int| 0 <= t <= n ==> row@[t] == glob_matches_at(glob@, g as int, text@, t),
        decreases g,
    {
        g -= 1;
        let mut t: usize = row.len();
        let mut below: bool = false;
        while t > 0
            invariant
                t <= n + 1,
                g < glob.len(),
                n == text.len(),
                row@.len() == n + 1,
                forall|k: int|
                    t <= k <= n ==> row@[k] == glob_matches_at(glob@, g as int, text@, k),
                forall|k: int|
                    0 <= k < t ==> row@[k] == glob_matches_at(glob@, g + 1, text@, k),
                t <= n ==> below == glob_matches_at(glob@, g + 1, text@, t as int),
            decreases t,
        {
            t -= 1;
            let here: bool = row[t];
            let value: bool = if glob[g] == STAR {
                here || (t < n && row[t + 1])
            } else {
                t < n && text[t] == glob[g] && below
            };
            row.set(t, value);
            below = here;
        }
    }
    row
}

impl Pattern {
    /// Whether the pattern matches the relative path.
    pub fn matches(&self, path: &[u8]) -> (yes: bool)
        ensures
            yes == pattern_matches(self@, path@),
    {
        if self.glob.len() == 0 {
            return false;
        }
        let starts: Vec<bool> = match_starts(self.glob.as_slice(), path);
        if self.anchored {
            return starts[0];
        }
        let mut t: usize = 0;
        while t < starts.len()
            invariant
                t <= starts.len(),
                starts@.len() == path@.len() + 1,
                self.glob.len() > 0,
                !self.anchored,
                forall|k: int|
                    0 <= k <= path@.len() ==> starts@[k] == glob_matches_at(
                        self.glob@,
                        0,
                        path@,
                        k,
                    ),
                forall|k: int| 0 <= k < t ==> !glob_matches_at(self.glob@, 0, path@, k),
            decreases starts.len() - t,
        {
            if starts[t] {
                proof {
                    assert(glob_matches_at(self@.glob, 0, path@, t as int));
                }
                return true;
            }
            t += 1;
        }
        false
    }
}

/// Finds where the field that begins at `pos` ends: at the next separator,
/// or at the end of the content.
pub fn field_end(content: &[u8], pos: usize, separator: u8) -> (end: usize)
    requires
        pos <= content.len(),
    ensures
        pos <= end <= content.len(),
        end - pos == first_field_len(content@.skip(pos as int), separator),
{
    let mut end: usize = pos;
    while end < content.len() && content[end] != separator
        invariant
            pos <= end <= content.len(),
            forall|j: int| pos <= j < end ==> content@[j] != separator,
        decreases content.len() - end,
    {
        end += 1;
    }
    proof {
        lemma_first_field_len(content@.skip(pos as int), separator, end - pos);
    }
    end
}

/// Reads the names of the indexed files from a listing in which a `NUL`
/// byte ends each name.
pub fn parse_listing(listing: &[u8]) -> (paths: Vec<Vec<u8>>)
    ensures
        path_views(paths@) == listed_paths(listing@),
{
    let mut paths: Vec<Vec<u8>> = Vec::new();
    let mut pos: usize = 0;
    proof {
        assert(listing@.skip(0) =~= listing@);
        assert(path_views(paths@) + listed_paths(listing@) =~= listed_paths(listing@));
    }
    while pos < listing.len()
        invariant
            pos <= listing.len(),
            listed_paths(listing@) == path_views(paths@) + listed_paths(
                listing@.skip(pos as int),
            ),
        decreases listing.len() - pos,
    {
        let end: usize = field_end(listing, pos, NUL);
        let ghost rest = listing@.skip(pos as int);
        let ghost before = path_views(paths@);
        proof {
            assert(rest.take(end - pos) =~= listing@.subrange(pos as int, end as int));
            if end < listing.len() {
                assert(rest.skip(end - pos + 1) =~= listing@.skip(end + 1));
            }
        }
        let name: &[u8] = slice_subrange(listing, pos, end);
        if name.len() > 0 {
            paths.push(slice_to_vec(name));
            proof {
                assert(path_views(paths@) =~= before + seq![name@]);
            }
        }
        let ghost tail = if end < listing.len() {
            listed_paths(listing@.skip(end + 1))
        } else {
            Seq::<Seq<u8>>::empty()
        };
        proof {
            if name.len() > 0 {
                assert(before + (seq![name@] + tail) =~= (before + seq![name@]) + tail);
            }
            assert(listed_paths(listing@) == path_views(paths@) + tail);
        }
        if end < listing.len() {
            pos = end + 1;
        } else {
            pos = end;
            proof {
                assert(listed_paths(listing@.skip(pos as int)) =~= Seq::<Seq<u8>>::empty());
            }
        }
    }
    proof {
        assert(path_views(paths@) + Seq::<Seq<u8>>::empty() =~= path_views(paths@));
    }
    paths
}

/// Reads the patterns of an ignore file from its content.
pub fn parse_gitignore(content: &[u8]) -> (patterns: Vec<Pattern>)
    ensures
        pattern_models(patterns@) == ignore_patterns(content@),
{
    let mut patterns: Vec<Pattern> = Vec::new();
    let mut pos: usize = 0;
    proof {
        assert(content@.skip(0) =~= content@);
        assert(pattern_models(patterns@) + ignore_patterns(content@) =~= ignore_patterns(
            content@,
        ));
    }
    while pos < content.len()
        invariant
            pos <= content.len(),
            ignore_patterns(content@) == pattern_models(patterns@) + ignore_patterns(
                content@.skip(pos as int),
            ),
        decreases content.len() - pos,
    {
        let end: usize = field_end(content, pos, NEWLINE);
        let ghost rest = content@.skip(pos as int);
        let ghost before = pattern_models(patterns@);
        proof {
            assert(rest.take(end - pos) =~= content@.subrange(pos as int, end as int));
            if end < content.len() {
                assert(rest.skip(end - pos + 1) =~= content@.skip(end + 1));
            }
        }
        let line: &[u8] = slice_subrange(content, pos, end);
        if line.len() > 0 && line[0] != HASH {
            let pattern = if line[0] == SLASH {
                proof {
                    assert(line@.skip(1) =~= line@.subrange(1, line.len() as int));
                }
                Pattern { anchored: true, glob: slice_to_vec(slice_subrange(line, 1, line.len())) }
            } else {
                Pattern { anchored: false, glob: slice_to_vec(line) }
            };
            patterns.push(pattern);
            proof {
                assert(line_pattern(line@) == Some(pattern@));
                assert(pattern_models(patterns@) =~= before + seq![pattern@]);
            }
        }
        let ghost tail = if end < content.len() {
            ignore_patterns(content@.skip(end + 1))
        } else {
            Seq::<PatternModel>::empty()
        };
        proof {
            match line_pattern(line@) {
                Some(p) => {
                    assert(before + (seq![p] + tail) =~= (before + seq![p]) + tail);
                },
                None => {},
            }
            assert(ignore_patterns(content@) == pattern_models(patterns@) + tail);
        }
        if end < content.len() {
            pos = end + 1;
        } else {
            pos = end;
            proof {
                assert(ignore_patterns(content@.skip(pos as int)) =~= Seq::<PatternModel>::empty());
            }
        }
    }
    proof {
        assert(pattern_models(patterns@) + Seq::<PatternModel>::empty() =~= pattern_models(
            patterns@,
        ));
    }
    patterns
}

/// Whether the relative path `file` lies below the directory `dir`.
pub fn is_below(file: &[u8], dir: &[u8]) -> (yes: bool)
    ensures
        yes == lies_below(file@, dir@),
{
    let yes: bool = file.len() > dir.len() && file[dir.len()] == SLASH && starts_with(file, dir);
    proof {
        let whole = dir@.push(SLASH);
        if file.len() > dir.len() {
            let head = file@.take(whole.len() as int);
            assert(head[dir.len() as int] == file@[dir.len() as int]);
            assert(whole[dir.len() as int] == SLASH);
            if head == whole {
                assert(file@.take(dir.len() as int) =~= head.take(dir.len() as int));
                assert(whole.take(dir.len() as int) =~= dir@);
            }
            if file@.take(dir.len() as int) == dir@ && file@[dir.len() as int] == SLASH {
                assert forall|i: int| 0 <= i < whole.len() implies head[i] == whole[i] by {
                    if i < dir.len() {
                        assert(file@.take(dir.len() as int)[i] == dir@[i]);
                    }
                }
                assert(head =~= whole);
            }
        }
    }
    yes
}

impl ExclusionContext {
    /// Chooses the rules of a run, once, before the walk. `indexed` is the
    /// list of files under version control where it could be obtained;
    /// `ignore_file` is the content of the root's ignore file, empty where
    /// there is none. With exclusion switched off neither is looked at.
    pub fn build(
        options: &GetStatsOptions,
        indexed: Option<Vec<Vec<u8>>>,
        ignore_file: &[u8],
    ) -> (rules: Self)
        ensures
            rules@ == chosen_rules(
                options.gitignore,
                match indexed {
                    Some(paths) => Some(path_views(paths@)),
                    None => None,
                },
                ignore_file@,
            ),
    {
        if !options.gitignore {
            ExclusionContext::Disabled
        } else {
            match indexed {
                Some(paths) => ExclusionContext::Indexed(paths),
                None => ExclusionContext::Patterns(parse_gitignore(ignore_file)),
            }
        }
    }

    /// Decides whether a path is excluded from the count; for a directory,
    /// whether the walk leaves out everything below it.
    pub fn excludes(&self, path: &[u8], is_dir: bool) -> (yes: bool)
        ensures
            yes == excluded(self@, path@, is_dir),
    {
        if path.len() == 1 && path[0] == DOT {
            proof {
                assert(path@ =~= seq![DOT]);
            }
            return false;
        }
        proof {
            assert(seq![DOT].len() == 1);
            assert(seq![DOT][0] == DOT);
        }
        let name: &[u8] = strip_dot_slash(path);
        match self {
            ExclusionContext::Disabled => false,
            ExclusionContext::Indexed(paths) => {
                let ghost models = path_views(paths@);
                let mut i: usize = 0;
                while i < paths.len()
                    invariant
                        i <= paths.len(),
                        models == path_views(paths@),
                        self@ == ExclusionModel::Indexed(models),
                        !is_root(path@),
                        name@ == relative(path@),
                        forall|k: int|
                            0 <= k < i ==> !(if is_dir {
                                lies_below(relative(#[trigger] models[k]), name@)
                            } else {
                                relative(models[k]) == name@
                            }),
                    decreases paths.len() - i,
                {
                    let file: &[u8] = strip_dot_slash(paths[i].as_slice());
                    let hit: bool = if is_dir {
                        is_below(file, name)
                    } else {
                        bytes_eq(file, name)
                    };
                    proof {
                        assert(models[i as int] == paths@[i as int]@);
                    }
                    if hit {
                        proof {
                            if is_dir {
                                assert(lies_below(relative(models[i as int]), relative(path@)));
                            } else {
                                assert(relative(models[i as int]) == relative(path@));
                            }
                        }
                        return false;
                    }
                    i += 1;
                }
                true
            },
            ExclusionContext::Patterns(patterns) => {
                let ghost models = pattern_models(patterns@);
                let mut i: usize = 0;
                while i < patterns.len()
                    invariant
                        i <= patterns.len(),
                        models == pattern_models(patterns@),
                        self@ == ExclusionModel::Patterns(models),
                        !is_root(path@),
                        name@ == relative(path@),
                        forall|k: int| 0 <= k < i ==> !pattern_matches(#[trigger] models[k], name@),
                    decreases patterns.len() - i,
                {
                    proof {
                        assert(models[i as int] == patterns@[i as int]@);
                    }
                    if patterns[i].matches(name) {
                        proof {
                            assert(pattern_matches(models[i as int], relative(path@)));
                        }
                        return true;
                    }
                    i += 1;
                }
                false
            },
        }
    }
}

} // verus!
