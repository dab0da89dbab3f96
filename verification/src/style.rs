//! Typographic attributes attached to a run of text.
//!
//! A `Style` is an order-irrelevant collection of `Class` tags: it is viewed
//! as a `Set<Class>`, insertion order does not matter and duplicates collapse.

use vstd::prelude::*;

verus! {

/// One typographic attribute.
#[derive(Clone, Copy, Debug, PartialEq, Eq, Structural)]
pub enum Class {
    /// Heading with its level (1 is the largest).
    Heading(u8),
    /// Block quote with its level of quotation.
    BlockQuote(u8),
    Strong,
    Emphasis,
    Code,
    Note,
    Link,
    Superscript,
}

/// A set of active typographic attributes.
#[derive(Debug)]
pub struct Style {
    classes: Vec<Class>,
}

impl View for Style {
    type V = Set<Class>;

    closed spec fn view(&self) -> Set<Class> {
        self.classes@.to_set()
    }
}

impl Style {
    /// The empty style: no attribute is active.
    pub fn new() -> (r: Style)
        ensures
            r@ == Set::<Class>::empty(),
    {
        let r = Style { classes: Vec::new() };
        proof {
            assert(r@ =~= Set::<Class>::empty());
        }
        r
    }

    /// Whether the attribute is active.
    pub fn contains(&self, class: &Class) -> (r: bool)
        ensures
            r == self@.contains(*class),
    {
        let mut i: usize = 0;
        while i < self.classes.len()
            invariant
                i <= self.classes.len(),
                forall|j: int| 0 <= j < i ==> self.classes@[j] != *class,
            decreases self.classes.len() - i,
        {
            if self.classes[i] == *class {
                return true;
            }
            i += 1;
        }
        false
    }

    /// Activate the attribute; doing so twice changes nothing.
    pub fn insert(&mut self, class: Class)
        ensures
            final(self)@ == old(self)@.insert(class),
    {
        if !self.contains(&class) {
            self.classes.push(class);
            proof {
                lemma_to_set_push(old(self).classes@, class);
                assert(self@ =~= old(self)@.insert(class));
            }
        } else {
            proof {
                assert(self@ =~= old(self)@.insert(class));
            }
        }
    }

    /// Deactivate the attribute; absent attributes are left alone.
    pub fn remove(&mut self, class: &Class)
        ensures
            final(self)@ == old(self)@.remove(*class),
    {
        let mut kept: Vec<Class> = Vec::new();
        let mut i: usize = 0;
        while i < self.classes.len()
            invariant
                i <= self.classes.len(),
                kept@ == old(self).classes@.subrange(0, i as int).filter(|c: Class| c != *class),
                self.classes@ == old(self).classes@,
            decreases self.classes.len() - i,
        {
            proof {
                assert(old(self).classes@.subrange(0, i + 1 as int).drop_last()
                    == old(self).classes@.subrange(0, i as int));
                reveal(Seq::filter);
            }
            if self.classes[i] != *class {
                kept.push(self.classes[i]);
            }
            i += 1;
        }
        proof {
            assert(old(self).classes@.subrange(0, self.classes@.len() as int)
                == old(self).classes@);
        }
        self.classes = kept;
        proof {
            lemma_filter_to_set_is_remove(old(self).classes@, *class);
        }
    }

    /// A copy whose attribute set is the same.
    pub fn duplicate(&self) -> (r: Style)
        ensures
            r@ == self@,
    {
        let mut classes: Vec<Class> = Vec::new();
        let mut i: usize = 0;
        while i < self.classes.len()
            invariant
                i <= self.classes.len(),
                classes@ == self.classes@.subrange(0, i as int),
            decreases self.classes.len() - i,
        {
            classes.push(self.classes[i]);
            i += 1;
        }
        proof {
            assert(classes@ == self.classes@);
        }
        Style { classes }
    }
}

proof fn lemma_filter_to_set_is_remove(s: Seq<Class>, class: Class)
    ensures
        s.filter(|c: Class| c != class).to_set() == s.to_set().remove(class),
    decreases s.len(),
{
    reveal(Seq::filter);
    if s.len() == 0 {
        assert(s.filter(|c: Class| c != class).to_set() =~= s.to_set().remove(class));
    } else {
        lemma_filter_to_set_is_remove(s.drop_last(), class);
        assert(s.drop_last().push(s.last()) == s);
        assert(s.to_set() == s.drop_last().to_set().insert(s.last())) by {
            lemma_to_set_push(s.drop_last(), s.last());
        }
        if s.last() == class {
            assert(s.filter(|c: Class| c != class) == s.drop_last().filter(|c: Class| c != class));
            assert(s.filter(|c: Class| c != class).to_set() =~= s.to_set().remove(class));
        } else {
            assert(s.filter(|c: Class| c != class)
                == s.drop_last().filter(|c: Class| c != class).push(s.last()));
            lemma_to_set_push(s.drop_last().filter(|c: Class| c != class), s.last());
            assert(s.filter(|c: Class| c != class).to_set() =~= s.to_set().remove(class));
        }
    }
}

proof fn lemma_to_set_push(s: Seq<Class>, c: Class)
    ensures
        s.push(c).to_set() == s.to_set().insert(c),
{
    assert forall|x: Class| s.push(c).to_set().contains(x)
        implies s.to_set().insert(c).contains(x) by {
        let i = choose|i: int| 0 <= i < s.push(c).len() && s.push(c)[i] == x;
        if i < s.len() {
            assert(s[i] == x);
        }
    }
    assert forall|x: Class| s.to_set().insert(c).contains(x)
        implies s.push(c).to_set().contains(x) by {
        if x == c {
            assert(s.push(c)[s.len() as int] == x);
        } else {
            let i = choose|i: int| 0 <= i < s.len() && s[i] == x;
            assert(s.push(c)[i] == x);
        }
    }
    assert(s.push(c).to_set() =~= s.to_set().insert(c));
}

impl PartialEq for Style {
    /// Equality is order-independent: two styles are equal when they hold
    /// the same set of attributes.
    fn eq(&self, other: &Style) -> (r: bool) {
        let mut i: usize = 0;
        while i < self.classes.len()
            invariant
                i <= self.classes.len(),
                forall|j: int| 0 <= j < i ==> other@.contains(#[trigger] self.classes@[j]),
            decreases self.classes.len() - i,
        {
            if !other.contains(&self.classes[i]) {
                proof {
                    assert(self@.contains(self.classes@[i as int]));
                }
                return false;
            }
            i += 1;
        }
        let mut i: usize = 0;
        while i < other.classes.len()
            invariant
                i <= other.classes.len(),
                forall|j: int| 0 <= j < i ==> self@.contains(#[trigger] other.classes@[j]),
                forall|j: int| 0 <= j < self.classes@.len()
                    ==> other@.contains(#[trigger] self.classes@[j]),
            decreases other.classes.len() - i,
        {
            if !self.contains(&other.classes[i]) {
                proof {
                    assert(other@.contains(other.classes@[i as int]));
                }
                return false;
            }
            i += 1;
        }
        proof {
            assert forall|x: Class| self@.contains(x) implies other@.contains(x) by {
                let j = choose|j: int| 0 <= j < self.classes@.len() && self.classes@[j] == x;
                assert(other@.contains(self.classes@[j]));
            }
            assert forall|x: Class| other@.contains(x) implies self@.contains(x) by {
                let j = choose|j: int| 0 <= j < other.classes@.len() && other.classes@[j] == x;
                assert(self@.contains(other.classes@[j]));
            }
            assert(self@ =~= other@);
        }
        true
    }
}

impl vstd::std_specs::cmp::PartialEqSpecImpl for Style {
    open spec fn obeys_eq_spec() -> bool {
        true
    }

    open spec fn eq_spec(&self, other: &Style) -> bool {
        self@ == other@
    }
}

impl Eq for Style {}

impl Default for Style {
    /// The default style is empty.
    fn default() -> (r: Style)
        ensures
            r@ == Set::<Class>::empty(),
    {
        Style::new()
    }
}

} // verus!
