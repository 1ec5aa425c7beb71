//! Paths, as the library sees them: sequences of names.

use vstd::prelude::*;
use vstd::string::*;
use crate::order::{
    agree_up_to, before_at, lemma_lex_asymmetric, lemma_lex_irreflexive, lemma_name_order,
    name_less, path_before, rank_names, Rank,
};

verus! {

/// A path, held as its components from the outermost directory to the last
/// name. It is shown with `/` between the components.
#[derive(Debug, PartialEq, Eq, PartialOrd, Ord)]
pub struct FilePath {
    pub components: Vec<String>,
}

impl View for FilePath {
    type V = Seq<Seq<char>>;

    open spec fn view(&self) -> Seq<Seq<char>> {
        Seq::new(self.components@.len(), |i: int| self.components@[i]@)
    }
}

/// The path as text: its components with `/` between them.
pub open spec fn display_text(path: Seq<Seq<char>>) -> Seq<char>
    decreases path.len(),
{
    if path.len() == 0 {
        Seq::empty()
    } else if path.len() == 1 {
        path[0]
    } else {
        display_text(path.drop_last()) + seq!['/'] + path.last()
    }
}

/// `base` is `path` or one of the directories above it.
pub open spec fn is_under(path: Seq<Seq<char>>, base: Seq<Seq<char>>) -> bool {
    base.len() <= path.len() && path.subrange(0, base.len() as int) == base
}

impl Clone for FilePath {
    fn clone(&self) -> (copy: FilePath)
        ensures
            copy@ == self@,
    {
        let mut components: Vec<String> = Vec::new();
        let mut i: usize = 0;
        while i < self.components.len()
            invariant
                i <= self.components@.len(),
                components@.len() == i,
                forall|j: int| 0 <= j < i ==> components@[j]@ == self.components@[j]@,
            decreases self.components@.len() - i,
        {
            components.push(self.components[i].clone());
            i = i + 1;
        }
        let copy = FilePath { components };
        assert(copy@ =~= self@);
        copy
    }
}

impl FilePath {
    /// The path with the given components.
    pub fn new(components: Vec<String>) -> (path: FilePath)
        ensures
            path.components == components,
    {
        FilePath { components }
    }

    /// The path of one component.
    pub fn single(name: &str) -> (path: FilePath)
        ensures
            path@ == seq![name@],
    {
        let mut components: Vec<String> = Vec::new();
        components.push(String::from_str(name));
        let path = FilePath { components };
        assert(path@ =~= seq![name@]);
        path
    }

    /// The path that leads from here along `rest`.
    pub fn join(&self, rest: &FilePath) -> (path: FilePath)
        ensures
            path@ == self@ + rest@,
    {
        let mut path = self.clone();
        let mut i: usize = 0;
        while i < rest.components.len()
            invariant
                i <= rest.components@.len(),
                path@ == self@ + rest@.subrange(0, i as int),
            decreases rest.components@.len() - i,
        {
            let ghost before = path@;
            path.components.push(rest.components[i].clone());
            assert(path@ =~= before.push(rest@[i as int]));
            assert(path@ =~= self@ + rest@.subrange(0, i + 1));
            i = i + 1;
        }
        assert(rest@.subrange(0, i as int) =~= rest@);
        path
    }

    /// Whether `base` is this path or one of the directories above it.
    pub fn starts_with(&self, base: &FilePath) -> (under: bool)
        ensures
            under == is_under(self@, base@),
    {
        if base.components.len() > self.components.len() {
            return false;
        }
        let mut i: usize = 0;
        while i < base.components.len()
            invariant
                i <= base.components@.len() <= self.components@.len(),
                agree_up_to(self@, base@, i as int),
            decreases base.components@.len() - i,
        {
            if !crate::order::same_name(self.components[i].as_str(), base.components[i].as_str()) {
                assert(self@.subrange(0, base@.len() as int)[i as int] != base@[i as int]);
                return false;
            }
            i = i + 1;
        }
        assert(self@.subrange(0, base@.len() as int) =~= base@);
        true
    }

    /// Says how this path stands to `other` in the order of paths.
    pub fn rank(&self, other: &FilePath) -> (rank: Rank)
        ensures
            rank == Rank::Before <==> path_before(self@, other@),
            rank == Rank::Same <==> self@ == other@,
            rank == Rank::After <==> path_before(other@, self@),
    {
        proof {
            lemma_name_order();
            lemma_lex_irreflexive(self@, name_less());
            if path_before(self@, other@) {
                lemma_lex_asymmetric(self@, other@, name_less());
            }
            if path_before(other@, self@) {
                lemma_lex_asymmetric(other@, self@, name_less());
            }
        }
        let mut i: usize = 0;
        while i < self.components.len() && i < other.components.len()
            invariant
                agree_up_to(self@, other@, i as int),
            decreases self.components@.len() - i,
        {
            let here = rank_names(self.components[i].as_str(), other.components[i].as_str());
            match here {
                Rank::Before => {
                    assert(before_at(self@, other@, name_less(), i as int));
                    return Rank::Before;
                },
                Rank::After => {
                    assert(agree_up_to(other@, self@, i as int));
                    assert(before_at(other@, self@, name_less(), i as int));
                    return Rank::After;
                },
                Rank::Same => {},
            }
            i = i + 1;
        }
        if i < other.components.len() {
            assert(before_at(self@, other@, name_less(), i as int));
            Rank::Before
        } else if i < self.components.len() {
            assert(agree_up_to(other@, self@, i as int));
            assert(before_at(other@, self@, name_less(), i as int));
            Rank::After
        } else {
            assert(self@ =~= other@);
            Rank::Same
        }
    }

    /// The path as text: its components with `/` between them.
    pub fn display(&self) -> (text: String)
        ensures
            text@ == display_text(self@),
    {
        let mut text = String::new();
        let mut i: usize = 0;
        while i < self.components.len()
            invariant
                i <= self.components@.len(),
                text@ == display_text(self@.subrange(0, i as int)),
            decreases self.components@.len() - i,
        {
            proof {
                reveal_strlit("/");
                assert(self@.subrange(0, i + 1).drop_last() =~= self@.subrange(0, i as int));
                assert("/"@ =~= seq!['/']);
            }
            if i > 0 {
                text.append("/");
            }
            text.append(self.components[i].as_str());
            assert(text@ =~= display_text(self@.subrange(0, i + 1)));
            i = i + 1;
        }
        assert(self@.subrange(0, i as int) =~= self@);
        text
    }
}

} // verus!
