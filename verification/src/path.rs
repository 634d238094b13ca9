//! Paths as sequences of components.
//!
//! A path is held as the list of its components, outermost first, each
//! spelled as the platform spells it: the root directory is the component
//! `/`, the current directory `.`, the parent directory `..`, and every
//! other component is the name of a directory or a file.

use vstd::prelude::*;
use vstd::string::{StrSliceExecFns, StringExecFns};

verus! {

/// A path as the sequence of its components, outermost first.
#[derive(Clone, Debug, PartialEq, Eq)]
pub struct FilePath {
    pub components: Vec<String>,
}

/// The mathematical value of a path: its components, each a sequence of
/// characters.
pub type PathModel = Seq<Seq<char>>;

/// The component sequences that a vector of strings stands for.
pub open spec fn names_of(components: Seq<String>) -> Seq<Seq<char>> {
    Seq::new(components.len(), |i: int| components[i]@)
}

/// The component that stands for the root directory.
pub open spec fn root_marker() -> Seq<char> {
    seq!['/']
}

/// Whether a component names a file or a directory, rather than the root,
/// the current or the parent directory.
pub open spec fn is_normal_name(name: Seq<char>) -> bool {
    name != seq!['/'] && name != seq!['.'] && name != seq!['.', '.']
}

/// The file name of a path: its last component, where that is a name.
pub open spec fn file_name_of(path: Seq<Seq<char>>) -> Option<Seq<char>> {
    if path.len() > 0 && is_normal_name(path.last()) {
        Some(path.last())
    } else {
        None
    }
}

/// Whether a path does not start at the root directory.
pub open spec fn is_relative(path: Seq<Seq<char>>) -> bool {
    path.len() == 0 || path[0] != root_marker()
}

/// What is left of `path` below `base`, where `base` is a prefix of it.
pub open spec fn stripped(path: Seq<Seq<char>>, base: Seq<Seq<char>>) -> Option<Seq<Seq<char>>> {
    if base.is_prefix_of(path) {
        Some(path.skip(base.len() as int))
    } else {
        None
    }
}

/// The text of a path: its components with a `/` between them.
pub open spec fn joined(path: Seq<Seq<char>>) -> Seq<char>
    decreases path.len(),
{
    if path.len() == 0 {
        Seq::empty()
    } else if path.len() == 1 {
        path[0]
    } else {
        joined(path.drop_last()) + seq!['/'] + path.last()
    }
}

impl View for FilePath {
    type V = Seq<Seq<char>>;

    open spec fn view(&self) -> Seq<Seq<char>> {
        names_of(self.components@)
    }
}

/// Whether `text` is the single character `c`.
fn is_single(text: &str, c: char) -> (yes: bool)
    ensures
        yes == (text@ == seq![c]),
{
    if text.unicode_len() == 1 {
        let found = text.get_char(0);
        assert(found == c ==> text@ =~= seq![c]);
        assert(text@ == seq![c] ==> found == c);
        found == c
    } else {
        assert(seq![c].len() == 1);
        false
    }
}

/// Whether `text` is the two characters `..`.
fn is_two_dots(text: &str) -> (yes: bool)
    ensures
        yes == (text@ == seq!['.', '.']),
{
    if text.unicode_len() == 2 {
        let first = text.get_char(0);
        let second = text.get_char(1);
        assert(first == '.' && second == '.' ==> text@ =~= seq!['.', '.']);
        assert(text@ == seq!['.', '.'] ==> first == '.' && second == '.');
        first == '.' && second == '.'
    } else {
        assert(seq!['.', '.'].len() == 2);
        false
    }
}

/// Whether a component names a file or a directory.
fn is_normal(text: &str) -> (yes: bool)
    ensures
        yes == is_normal_name(text@),
{
    !is_single(text, '/') && !is_single(text, '.') && !is_two_dots(text)
}

impl FilePath {
    /// The path made of the given components.
    pub fn new(components: Vec<String>) -> (path: FilePath)
        ensures
            path@ == names_of(components@),
    {
        FilePath { components }
    }

    /// A copy of this path.
    pub fn duplicate(&self) -> (copy: FilePath)
        ensures
            copy@ == self@,
    {
        let components = self.components.clone();
        assert(names_of(components@) =~= names_of(self.components@));
        FilePath { components }
    }

    /// The text of the path: its components with a `/` between them.
    pub fn text(&self) -> (text: String)
        ensures
            text@ == joined(self@),
    {
        let mut text = String::new();
        let mut i: usize = 0;
        assert(self@.take(0) =~= Seq::<Seq<char>>::empty());
        while i < self.components.len()
            invariant
                i <= self.components.len(),
                text@ == joined(self@.take(i as int)),
            decreases self.components.len() - i,
        {
            proof {
                reveal_strlit("/");
                assert(self@.take(i + 1).drop_last() =~= self@.take(i as int));
                assert(self@.take(i + 1).last() == self.components[i as int]@);
            }
            if i > 0 {
                text.append("/");
                assert("/"@ =~= seq!['/']);
            } else {
                assert(Seq::<char>::empty() + self.components[i as int]@ =~= self.components[i as int]@);
            }
            text.append(self.components[i].as_str());
            i += 1;
        }
        assert(self@.take(i as int) =~= self@);
        text
    }

    /// Whether the two paths have the same components.
    pub fn same_as(&self, other: &FilePath) -> (same: bool)
        ensures
            same == (self@ == other@),
    {
        if self.components.len() != other.components.len() {
            assert(self@.len() != other@.len());
            return false;
        }
        let mut i: usize = 0;
        while i < self.components.len()
            invariant
                i <= self.components.len(),
                self.components.len() == other.components.len(),
                forall|j: int| 0 <= j < i ==> self@[j] == other@[j],
            decreases self.components.len() - i,
        {
            if self.components[i] != other.components[i] {
                assert(self@[i as int] != other@[i as int]);
                return false;
            }
            i += 1;
        }
        assert(self@ =~= other@);
        true
    }

    /// The file name of the path: its last component, unless the path is
    /// empty or ends in the root, the current or the parent directory.
    pub fn file_name(&self) -> (name: Option<String>)
        ensures
            match name {
                Some(text) => file_name_of(self@) == Some(text@),
                None => file_name_of(self@) is None,
            },
    {
        let count: usize = self.components.len();
        if count == 0 {
            return None;
        }
        let last = &self.components[count - 1];
        assert(self@.last() == last@);
        if is_normal(last.as_str()) {
            Some(last.clone())
        } else {
            None
        }
    }

    /// Whether the path does not start at the root directory.
    pub fn is_relative(&self) -> (relative: bool)
        ensures
            relative == is_relative(self@),
    {
        if self.components.len() == 0 {
            true
        } else {
            assert(self@[0] == self.components[0]@);
            !is_single(self.components[0].as_str(), '/')
        }
    }

    /// The rest of this path below `base`, or `None` where `base` is not a
    /// prefix of it, component by component.
    pub fn strip_prefix(&self, base: &FilePath) -> (rest: Option<FilePath>)
        ensures
            match rest {
                Some(below) => stripped(self@, base@) == Some(below@),
                None => stripped(self@, base@) is None,
            },
    {
        let n: usize = base.components.len();
        if self.components.len() < n {
            return None;
        }
        let mut i: usize = 0;
        while i < n
            invariant
                i <= n,
                n == base.components.len(),
                n <= self.components.len(),
                forall|j: int| 0 <= j < i ==> self@[j] == base@[j],
            decreases n - i,
        {
            if self.components[i] != base.components[i] {
                assert(self@[i as int] != base@[i as int]);
                return None;
            }
            i += 1;
        }
        assert(base@ =~= self@.subrange(0, n as int));
        let mut components: Vec<String> = Vec::new();
        let mut k: usize = n;
        while k < self.components.len()
            invariant
                n <= k <= self.components.len(),
                components.len() == k - n,
                forall|j: int| 0 <= j < components.len() ==> components[j]@ == self@[n + j],
            decreases self.components.len() - k,
        {
            components.push(self.components[k].clone());
            k += 1;
        }
        assert(names_of(components@) =~= self@.skip(n as int));
        Some(FilePath { components })
    }
}

} // verus!
