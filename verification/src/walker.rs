//! The tree walker's decisions. The walk itself reads directories, which is
//! not done here: the caller reads one directory at a time and reports each
//! entry it finds; the walker says what becomes of the entry and keeps the
//! list of directories that are still to be read. There is no recursion, so
//! the depth of a tree costs nothing but an element of that list.

use crate::bytes::bytes_eq;
use crate::bytes::ends_with;
use crate::bytes::has_suffix;
use crate::exclusion::excluded;
use crate::exclusion::ExclusionContext;
use crate::exclusion::ExclusionModel;
use crate::langs::DOT;
use crate::langs::SLASH;
use vstd::prelude::*;

verus! {

/// What becomes of a path that the walk comes upon.
#[derive(Clone, Copy, Debug, PartialEq, Eq, Structural)]
pub enum Visit {
    /// The path is left out; if it is a directory, with all below it.
    Skip,
    /// The path is a directory that the walk goes into.
    Descend,
    /// The path is a file that is counted.
    Count,
}

/// The name of the directory that version control keeps for itself.
pub open spec fn git_dir_name() -> Seq<u8> {
    seq![DOT, 0x67u8, 0x69u8, 0x74u8]
}

/// Whether the last component of the path is `.git`.
pub open spec fn is_git_dir(path: Seq<u8>) -> bool {
    path == git_dir_name() || has_suffix(path, seq![SLASH] + git_dir_name())
}

/// The path of the entry `name` of the directory `dir`.
pub open spec fn child_of(dir: Seq<u8>, name: Seq<u8>) -> Seq<u8> {
    dir.push(SLASH) + name
}

/// The decision for a path: a directory is entered unless it is named `.git`
/// or excluded; a file is counted unless it is excluded.
pub open spec fn visit_of(rules: ExclusionModel, path: Seq<u8>, is_dir: bool) -> Visit {
    if is_dir {
        if is_git_dir(path) || excluded(rules, path, true) {
            Visit::Skip
        } else {
            Visit::Descend
        }
    } else {
        if excluded(rules, path, false) {
            Visit::Skip
        } else {
            Visit::Count
        }
    }
}

/// Whether the walk enters every directory above the path: each of them is
/// decided `Descend`.
pub open spec fn ancestors_entered(rules: ExclusionModel, path: Seq<u8>) -> bool {
    forall|k: int|
        0 <= k < path.len() && path[k] == SLASH ==> visit_of(rules, #[trigger] path.take(k), true)
            == Visit::Descend
}

/// Whether the walk reads the directory: it enters it and every directory
/// above it.
pub open spec fn is_read(rules: ExclusionModel, dir: Seq<u8>) -> bool {
    visit_of(rules, dir, true) == Visit::Descend && ancestors_entered(rules, dir)
}

/// Whether the bytes are the name of a directory entry: no separator is
/// among them.
pub open spec fn is_entry_name(name: Seq<u8>) -> bool {
    forall|j: int| 0 <= j < name.len() ==> name[j] != SLASH
}

/// The directories above an entry of a directory that the walk reads are
/// all entered.
pub proof fn lemma_child_ancestors(rules: ExclusionModel, dir: Seq<u8>, name: Seq<u8>)
    requires
        is_read(rules, dir),
        is_entry_name(name),
    ensures
        ancestors_entered(rules, child_of(dir, name)),
{
    let child = child_of(dir, name);
    assert forall|k: int| 0 <= k < child.len() && child[k] == SLASH implies visit_of(
        rules,
        #[trigger] child.take(k),
        true,
    ) == Visit::Descend by {
        if k < dir.len() {
            assert(child.take(k) =~= dir.take(k));
            assert(child[k] == dir[k]);
        } else if k == dir.len() {
            assert(child.take(k) =~= dir);
        } else {
            assert(child[k] == name[k - dir.len() - 1]);
        }
    }
}

/// With exclusion switched off every file is counted, and every directory
/// but those named `.git` is entered.
pub proof fn lemma_disabled_visits_all(path: Seq<u8>, is_dir: bool)
    ensures
        visit_of(ExclusionModel::Disabled, path, is_dir) == if !is_dir {
            Visit::Count
        } else if is_git_dir(path) {
            Visit::Skip
        } else {
            Visit::Descend
        },
{
}

/// The root is read whatever the rules are.
pub proof fn lemma_root_is_entered(rules: ExclusionModel)
    ensures
        is_read(rules, seq![DOT]),
{
    let root = seq![DOT];
    let below = seq![SLASH] + git_dir_name();
    assert(root.len() == 1);
    assert(git_dir_name().len() == 4);
    assert(below.len() == 5);
    assert(root[0] == DOT);
}

/// Decides what becomes of a path.
pub fn decide(filter: &ExclusionContext, path: &[u8], is_dir: bool) -> (visit: Visit)
    ensures
        visit == visit_of(filter@, path@, is_dir),
{
    if is_dir {
        let name: [u8; 4] = [DOT, 0x67, 0x69, 0x74];
        let below: [u8; 5] = [SLASH, DOT, 0x67, 0x69, 0x74];
        proof {
            assert(name@ =~= git_dir_name());
            assert(below@ =~= seq![SLASH] + git_dir_name());
        }
        if bytes_eq(path, name.as_slice()) || ends_with(path, below.as_slice()) {
            Visit::Skip
        } else if filter.excludes(path, true) {
            Visit::Skip
        } else {
            Visit::Descend
        }
    } else {
        if filter.excludes(path, false) {
            Visit::Skip
        } else {
            Visit::Count
        }
    }
}

/// Builds the path of an entry from its directory's path and its name.
pub fn child_path(dir: &[u8], name: &[u8]) -> (path: Vec<u8>)
    ensures
        path@ == child_of(dir@, name@),
{
    let mut path: Vec<u8> = Vec::new();
    let mut i: usize = 0;
    while i < dir.len()
        invariant
            i <= dir.len(),
            path@ == dir@.take(i as int),
        decreases dir.len() - i,
    {
        path.push(dir[i]);
        proof {
            assert(path@ =~= dir@.take(i + 1));
        }
        i += 1;
    }
    path.push(SLASH);
    proof {
        assert(dir@.take(dir.len() as int) =~= dir@);
    }
    let mut j: usize = 0;
    while j < name.len()
        invariant
            j <= name.len(),
            path@ == dir@.push(SLASH) + name@.take(j as int),
        decreases name.len() - j,
    {
        path.push(name[j]);
        proof {
            assert(path@ =~= dir@.push(SLASH) + name@.take(j + 1));
        }
        j += 1;
    }
    proof {
        assert(name@.take(name.len() as int) =~= name@);
    }
    path
}

/// The directories that are still to be read, the next one last.
#[derive(Debug)]
pub struct Walker {
    pending: Vec<Vec<u8>>,
}

impl View for Walker {
    type V = Seq<Seq<u8>>;

    closed spec fn view(&self) -> Seq<Seq<u8>> {
        self.pending@.map_values(|p: Vec<u8>| p@)
    }
}

impl Walker {
    /// Whether every directory on the list is one that the walk reads under
    /// the rules: neither it nor a directory above it is named `.git` or
    /// excluded.
    pub open spec fn only_entered(&self, rules: ExclusionModel) -> bool {
        forall|i: int| 0 <= i < self@.len() ==> is_read(rules, #[trigger] self@[i])
    }

    /// A walk that has only its root, `.`, to read.
    pub fn new() -> (walker: Self)
        ensures
            walker@ == seq![seq![DOT]],
            forall|rules: ExclusionModel| walker.only_entered(rules),
    {
        let mut root: Vec<u8> = Vec::new();
        root.push(DOT);
        let mut pending: Vec<Vec<u8>> = Vec::new();
        pending.push(root);
        let walker = Walker { pending };
        proof {
            assert(root@ =~= seq![DOT]);
            assert(walker@ =~= seq![seq![DOT]]);
            assert forall|rules: ExclusionModel| walker.only_entered(rules) by {
                lemma_root_is_entered(rules);
            }
        }
        walker
    }

    /// Whether nothing is left to read.
    pub fn is_done(&self) -> (done: bool)
        ensures
            done == (self@.len() == 0),
    {
        self.pending.len() == 0
    }

    /// Takes the next directory to read off the list; `None` when the walk
    /// is over.
    pub fn next_directory(&mut self) -> (dir: Option<Vec<u8>>)
        ensures
            match dir {
                Some(path) => old(self)@.len() > 0 && path@ == old(self)@.last() && final(self)@
                    == old(self)@.drop_last(),
                None => old(self)@.len() == 0 && final(self)@ == old(self)@,
            },
            forall|rules: ExclusionModel|
                old(self).only_entered(rules) ==> final(self).only_entered(rules) && (match dir {
                    Some(path) => is_read(rules, path@),
                    None => true,
                }),
    {
        let dir = self.pending.pop();
        proof {
            if old(self)@.len() > 0 {
                assert(self@ =~= old(self)@.drop_last());
            }
            assert forall|rules: ExclusionModel|
                old(self).only_entered(rules) implies self.only_entered(rules) && (match dir {
                Some(path) => is_read(rules, path@),
                None => true,
            }) by {
                if old(self)@.len() > 0 {
                    assert(old(self)@[old(self)@.len() - 1] == old(self)@.last());
                    assert forall|i: int| 0 <= i < self@.len() implies is_read(
                        rules,
                        #[trigger] self@[i],
                    ) by {
                        assert(self@[i] == old(self)@[i]);
                    }
                }
            }
        }
        dir
    }

    /// Takes note of the entry `name` found in the directory `dir`. A
    /// directory that is entered joins the list; the path of a file that is
    /// counted is handed back; everything else is dropped. Where `dir` is a
    /// directory that the walk reads, so is every directory that joins the
    /// list, and every file handed back lies below entered directories only.
    pub fn visit(
        &mut self,
        filter: &ExclusionContext,
        dir: &[u8],
        name: &[u8],
        is_dir: bool,
    ) -> (file: Option<Vec<u8>>)
        ensures
            match visit_of(filter@, child_of(dir@, name@), is_dir) {
                Visit::Skip => file.is_none() && final(self)@ == old(self)@,
                Visit::Descend => file.is_none() && final(self)@ == old(self)@.push(
                    child_of(dir@, name@),
                ),
                Visit::Count => final(self)@ == old(self)@ && match file {
                    Some(path) => path@ == child_of(dir@, name@),
                    None => false,
                },
            },
            is_read(filter@, dir@) && is_entry_name(name@) ==> (old(self).only_entered(filter@)
                ==> final(self).only_entered(filter@)) && (match file {
                Some(path) => ancestors_entered(filter@, path@),
                None => true,
            }),
    {
        proof {
            if is_read(filter@, dir@) && is_entry_name(name@) {
                lemma_child_ancestors(filter@, dir@, name@);
            }
        }
        let path: Vec<u8> = child_path(dir, name);
        match decide(filter, path.as_slice(), is_dir) {
            Visit::Skip => None,
            Visit::Descend => {
                self.pending.push(path);
                proof {
                    assert(self@ =~= old(self)@.push(child_of(dir@, name@)));
                }
                None
            },
            Visit::Count => Some(path),
        }
    }
}

} // verus!
