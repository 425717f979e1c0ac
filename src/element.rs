//! Elements of a decoded XML document, and the builder that nests them from
//! a flat stream of start and end events.
use std::rc::Rc;
use vstd::prelude::*;

verus! {

/// The name of an element and the namespace prefixes active on it.
#[derive(Debug, PartialEq, Eq, Hash)]
pub struct Tag {
    name: Rc<String>,
    prefixes: Vec<Rc<String>>,
}

impl Tag {
    pub closed spec fn spec_name(&self) -> Seq<char> {
        self.name@
    }

    pub closed spec fn spec_prefixes(&self) -> Seq<Rc<String>> {
        self.prefixes@
    }

    pub fn new(name: Rc<String>, prefixes: Vec<Rc<String>>) -> (r: Self)
        ensures
            r.spec_name() == name@,
            r.spec_prefixes() == prefixes@,
    {
        Self { name, prefixes }
    }

    pub fn get_name(&self) -> (r: Rc<String>)
        ensures
            r@ == self.spec_name(),
    {
        self.name.clone()
    }

    pub fn get_prefixes(&self) -> (r: &Vec<Rc<String>>)
        ensures
            r@ == self.spec_prefixes(),
    {
        &self.prefixes
    }
}

/// The text of each name and value of an attribute list.
pub open spec fn pairs_view(v: Seq<(String, String)>) -> Seq<(Seq<char>, Seq<char>)> {
    v.map_values(|a: (String, String)| (a.0@, a.1@))
}

/// An element: its tag, its attributes (name to resolved value, each name
/// once, in the order the names first appear), its
/// children in document order, and its depth (zero for the root).
#[derive(Debug)]
pub struct Element {
    tag: Tag,
    attrs: Vec<(String, String)>,
    children: Vec<Element>,
    level: u32,
}

impl Element {
    pub closed spec fn spec_tag(&self) -> Tag {
        self.tag
    }

    pub closed spec fn spec_attrs(&self) -> Seq<(Seq<char>, Seq<char>)> {
        pairs_view(self.attrs@)
    }

    pub closed spec fn spec_children(&self) -> Seq<Element> {
        self.children@
    }

    pub closed spec fn spec_level(&self) -> nat {
        self.level as nat
    }

    /// `result` is `self` with `child` appended as its last child.
    pub open spec fn with_child(&self, child: Element, result: Element) -> bool {
        &&& result.spec_tag() == self.spec_tag()
        &&& result.spec_attrs() == self.spec_attrs()
        &&& result.spec_level() == self.spec_level()
        &&& result.spec_children() == self.spec_children().push(child)
    }

    /// An element with no children, at depth zero.
    pub fn new(tag: Tag, attrs: Vec<(String, String)>) -> (r: Self)
        ensures
            r.spec_tag() == tag,
            r.spec_attrs() == pairs_view(attrs@),
            r.spec_children() == Seq::<Element>::empty(),
            r.spec_level() == 0,
    {
        Self { tag, attrs, children: Vec::new(), level: 0 }
    }

    /// Appends `element` as the last child.
    pub fn append(&mut self, element: Self)
        ensures
            old(self).with_child(element, *final(self)),
    {
        self.children.push(element)
    }

    pub fn set_level(&mut self, level: u32)
        ensures
            final(self).spec_tag() == old(self).spec_tag(),
            final(self).spec_attrs() == old(self).spec_attrs(),
            final(self).spec_children() == old(self).spec_children(),
            final(self).spec_level() == level,
    {
        self.level = level;
    }

    pub fn get_attributes(&self) -> (r: &Vec<(String, String)>)
        ensures
            pairs_view(r@) == self.spec_attrs(),
    {
        &self.attrs
    }

    pub fn get_tag(&self) -> (r: &Tag)
        ensures
            *r == self.spec_tag(),
    {
        &self.tag
    }

    pub fn get_children(&self) -> (r: &Vec<Self>)
        ensures
            r@ == self.spec_children(),
    {
        &self.children
    }

    pub fn get_level(&self) -> (r: u32)
        ensures
            r == self.spec_level(),
    {
        self.level
    }
}

/// Builds the element tree from start and end events: a stack of the
/// elements still open, and the root once the outermost one has closed.
#[derive(Debug)]
pub struct ElementContainer {
    stack: Vec<Element>,
    root: Option<Element>,
}

impl ElementContainer {
    pub closed spec fn spec_stack(&self) -> Seq<Element> {
        self.stack@
    }

    pub closed spec fn spec_root(&self) -> Option<Element> {
        self.root
    }

    /// An empty builder: nothing open, no root.
    pub fn new() -> (r: Self)
        ensures
            r.spec_stack() == Seq::<Element>::empty(),
            r.spec_root() == None::<Element>,
    {
        ElementContainer { stack: Vec::new(), root: None }
    }

    /// Opens `element` at the depth given by the number of elements open.
    pub fn start_element(&mut self, element: Element)
        requires
            old(self).spec_stack().len() <= u32::MAX,
        ensures
            final(self).spec_root() == old(self).spec_root(),
            final(self).spec_stack().len() == old(self).spec_stack().len() + 1,
            final(self).spec_stack().drop_last() == old(self).spec_stack(),
            ({
                let e = final(self).spec_stack().last();
                &&& e.spec_tag() == element.spec_tag()
                &&& e.spec_attrs() == element.spec_attrs()
                &&& e.spec_children() == element.spec_children()
                &&& e.spec_level() == old(self).spec_stack().len()
            }),
    {
        let mut element = element;
        element.set_level(self.stack.len() as u32);
        self.stack.push(element);
        proof {
            assert(self.stack@.drop_last() =~= old(self).stack@);
        }
    }

    /// Closes the innermost open element: it becomes the last child of the
    /// element around it, or the root when it was the outermost one.
    /// With nothing open the builder is left as it is, and `false` tells
    /// the caller of that unbalanced end event.
    pub fn end_element(&mut self) -> (closed: bool)
        ensures
            closed == (old(self).spec_stack().len() > 0),
            !closed ==> *final(self) == *old(self),
            old(self).spec_stack().len() == 1 ==> {
                &&& final(self).spec_stack() == Seq::<Element>::empty()
                &&& final(self).spec_root() == Some(old(self).spec_stack()[0])
            },
            old(self).spec_stack().len() >= 2 ==> ({
                let s = old(self).spec_stack();
                let n = s.len() as int;
                &&& final(self).spec_root() == old(self).spec_root()
                &&& final(self).spec_stack().len() == n - 1
                &&& final(self).spec_stack().take(n - 2) == s.take(n - 2)
                &&& s[n - 2].with_child(s[n - 1], final(self).spec_stack()[n - 2])
            }),
    {
        if self.stack.len() == 0 {
            return false;
        }
        match self.stack.pop() {
            Some(element) => {
                match self.stack.pop() {
                    Some(parent) => {
                        let mut parent = parent;
                        parent.append(element);
                        self.stack.push(parent);
                        proof {
                            let n = old(self).stack@.len() as int;
                            assert(self.stack@.take(n - 2) =~= old(self).stack@.take(n - 2));
                        }
                    },
                    None => {
                        self.root = Some(element);
                        proof {
                            assert(self.stack@ =~= Seq::<Element>::empty());
                        }
                    },
                }
                true
            },
            None => false,
        }
    }

    /// The number of elements open.
    pub fn depth(&self) -> (r: usize)
        ensures
            r == self.spec_stack().len(),
    {
        self.stack.len()
    }

    /// The root, taking the builder apart.
    pub fn into_root(self) -> (r: Option<Element>)
        ensures
            r == self.spec_root(),
    {
        self.root
    }

    pub fn get_root(&self) -> (r: &Option<Element>)
        ensures
            *r == self.spec_root(),
    {
        &self.root
    }
}

} // verus!
