//! Namespace scoping: the prefixes bound by start-namespace events that
//! have not yet met their end-namespace event.
use std::rc::Rc;
use vstd::prelude::*;

verus! {

/// The URI bound to `prefix` by the innermost binding of it in `s`.
pub open spec fn lookup(s: Seq<(Seq<char>, Seq<char>)>, prefix: Seq<char>) -> Option<Seq<char>>
    decreases s.len(),
{
    if s.len() == 0 {
        None
    } else if s.last().0 == prefix {
        Some(s.last().1)
    } else {
        lookup(s.drop_last(), prefix)
    }
}

/// The open namespace bindings, outermost first.
pub struct NamespaceStack {
    entries: Vec<(Rc<String>, Rc<String>)>,
}

impl View for NamespaceStack {
    type V = Seq<(Seq<char>, Seq<char>)>;

    closed spec fn view(&self) -> Seq<(Seq<char>, Seq<char>)> {
        self.entries@.map_values(|e: (Rc<String>, Rc<String>)| (e.0@, e.1@))
    }
}

impl NamespaceStack {
    /// A stack with no binding open.
    pub fn new() -> (r: Self)
        ensures
            r@ == Seq::<(Seq<char>, Seq<char>)>::empty(),
    {
        let r = NamespaceStack { entries: Vec::new() };
        proof {
            assert(r@ =~= Seq::<(Seq<char>, Seq<char>)>::empty());
        }
        r
    }

    /// The number of bindings open.
    pub fn depth(&self) -> (r: usize)
        ensures
            r == self@.len(),
    {
        self.entries.len()
    }

    /// Opens a binding of `prefix` to `uri`, innermost.
    pub fn start_namespace(&mut self, prefix: Rc<String>, uri: Rc<String>)
        ensures
            final(self)@ == old(self)@.push((prefix@, uri@)),
    {
        self.entries.push((prefix, uri));
        proof {
            assert(final(self)@ =~= old(self)@.push((prefix@, uri@)));
        }
    }

    /// Closes the innermost binding and hands it back; `None` where no
    /// binding is open, which leaves the stack as it is.
    pub fn end_namespace(&mut self) -> (r: Option<(Rc<String>, Rc<String>)>)
        ensures
            old(self)@.len() == 0 ==> r is None && final(self)@ == old(self)@,
            old(self)@.len() > 0 ==> {
                &&& final(self)@ == old(self)@.drop_last()
                &&& r matches Some(e) && (e.0@, e.1@) == old(self)@.last()
            },
    {
        let r = self.entries.pop();
        proof {
            if old(self)@.len() > 0 {
                assert(final(self)@ =~= old(self)@.drop_last());
            }
        }
        r
    }

    /// The URI that `prefix` is bound to by its innermost open binding.
    pub fn lookup(&self, prefix: &String) -> (r: Option<Rc<String>>)
        ensures
            match r {
                Some(u) => lookup(self@, prefix@) == Some(u@),
                None => lookup(self@, prefix@) is None,
            },
    {
        let mut i = self.entries.len();
        assert(self@.take(i as int) =~= self@);
        while i > 0
            invariant
                i <= self.entries@.len(),
                self@.len() == self.entries@.len(),
                lookup(self@, prefix@) == lookup(self@.take(i as int), prefix@),
            decreases i,
        {
            let ghost t = self@.take(i as int);
            assert(t.drop_last() =~= self@.take(i - 1));
            let e = &self.entries[i - 1];
            let name: &String = &e.0;
            assert(t.last() == (e.0@, e.1@));
            if name.eq(prefix) {
                return Some(e.1.clone());
            }
            i -= 1;
        }
        None
    }

    /// The prefixes of the open bindings, outermost first.
    pub fn prefixes(&self) -> (r: Vec<Rc<String>>)
        ensures
            r@.len() == self@.len(),
            forall|i: int| 0 <= i < r@.len() ==> r@[i]@ == #[trigger] self@[i].0,
    {
        let mut r: Vec<Rc<String>> = Vec::new();
        let mut i: usize = 0;
        while i < self.entries.len()
            invariant
                i <= self.entries@.len(),
                r@.len() == i,
                forall|j: int| 0 <= j < i ==> r@[j]@ == #[trigger] self@[j].0,
            decreases self.entries@.len() - i,
        {
            r.push(self.entries[i].0.clone());
            i += 1;
        }
        r
    }
}

/// A binding is visible from the start event that opens it for as long as
/// no inner binding of the same prefix is open, and after its end event the
/// prefix resolves as it did before the binding was opened.
pub proof fn lemma_namespace_scope(
    outer: Seq<(Seq<char>, Seq<char>)>,
    prefix: Seq<char>,
    uri: Seq<char>,
    inner: Seq<(Seq<char>, Seq<char>)>,
)
    requires
        forall|i: int| 0 <= i < inner.len() ==> (#[trigger] inner[i]).0 != prefix,
    ensures
        lookup(outer.push((prefix, uri)) + inner, prefix) == Some(uri),
        outer.push((prefix, uri)).drop_last() == outer,
        lookup(outer, prefix) is None ==> lookup(outer.push((prefix, uri)).drop_last(), prefix) is None,
    decreases inner.len(),
{
    let s = outer.push((prefix, uri));
    assert(s.drop_last() =~= outer);
    if inner.len() == 0 {
        assert(s + inner =~= s);
    } else {
        let shorter = inner.drop_last();
        lemma_namespace_scope(outer, prefix, uri, shorter);
        assert((s + inner).drop_last() =~= s + shorter);
        assert((s + inner).last() == inner.last());
    }
}

} // verus!
