//! Providers of entry models for list components: the list lazily asks for
//! the model of each entry about to be displayed, so setting the content is
//! providing one of these.
//!
//! The masked provider wraps another provider and hides a single item: every
//! index past the masked one shifts by one, as a drop-down does while the
//! selected item is lifted out of the list.

use vstd::prelude::*;

use crate::state::opt_str_view;

verus! {

/// A provider with no entries: the default content of a fresh list.
#[derive(Clone, Copy, Debug)]
pub struct EmptyProvider;

impl EmptyProvider {
    /// Number of all entries.
    pub fn entry_count(&self) -> (r: usize)
        ensures
            r == 0,
    {
        0
    }

    /// The model of the entry with the given id: there is none.
    pub fn get(&self, _id: usize) -> (r: Option<String>)
        ensures
            r is None,
    {
        None
    }
}

/// Some provider of entry models, as a closed set of variants: no entries at
/// all, or one label per entry.
#[derive(Clone, Debug)]
pub enum AnyModelProvider {
    /// No entries.
    Empty(EmptyProvider),
    /// One label per entry, in order.
    Labels(Vec<String>),
}

impl AnyModelProvider {
    /// The labels this provider serves, in order.
    pub open spec fn model(self) -> Seq<Seq<char>> {
        match self {
            AnyModelProvider::Empty(_) => Seq::empty(),
            AnyModelProvider::Labels(v) => Seq::new(v@.len(), |i: int| v@[i]@),
        }
    }

    /// A provider serving the given labels.
    pub fn new(labels: Vec<String>) -> (r: AnyModelProvider)
        ensures
            r.model() =~= Seq::new(labels@.len(), |i: int| labels@[i]@),
    {
        AnyModelProvider::Labels(labels)
    }

    /// Number of all entries.
    pub fn entry_count(&self) -> (r: usize)
        ensures
            r == self.model().len(),
    {
        match self {
            AnyModelProvider::Empty(p) => p.entry_count(),
            AnyModelProvider::Labels(v) => v.len(),
        }
    }

    /// The model of the entry with the given id; `None` exactly when the id
    /// is at or past the entry count.
    pub fn get(&self, id: usize) -> (r: Option<String>)
        ensures
            id < self.model().len() ==> opt_str_view(r) == Some(self.model()[id as int]),
            id >= self.model().len() ==> r is None,
    {
        match self {
            AnyModelProvider::Empty(p) => p.get(id),
            AnyModelProvider::Labels(v) => {
                if id < v.len() {
                    Some(v[id].clone())
                } else {
                    None
                }
            },
        }
    }
}

impl Default for AnyModelProvider {
    /// The default provider serves nothing.
    fn default() -> (r: AnyModelProvider)
        ensures
            r.model() =~= Seq::<Seq<char>>::empty(),
    {
        AnyModelProvider::Empty(EmptyProvider)
    }
}

/// A provider that wraps another one and masks a single item out.
#[derive(Clone, Debug)]
pub struct SingleMaskedProvider {
    pub content: AnyModelProvider,
    pub mask: Option<usize>,
}

impl SingleMaskedProvider {
    /// The labels served: the content's labels with the masked one, if any,
    /// left out.
    pub open spec fn model(self) -> Seq<Seq<char>> {
        let inner = self.content.model();
        match self.mask {
            None => inner,
            Some(m) => if m < inner.len() {
                inner.remove(m as int)
            } else {
                if inner.len() > 0 {
                    inner.take(inner.len() - 1)
                } else {
                    inner
                }
            },
        }
    }

    /// Wrap a provider, with no item masked yet.
    pub fn new(content: AnyModelProvider) -> (r: SingleMaskedProvider)
        ensures
            r.content == content,
            r.mask is None,
            r.model() =~= content.model(),
    {
        SingleMaskedProvider { content, mask: None }
    }

    /// Transform an index of an element visible in the masked view to the
    /// index in the underlying data, accounting for the removal of the
    /// masked item.
    pub fn unmasked_index(&self, ix: usize) -> (r: usize)
        requires
            ix < usize::MAX,
        ensures
            r == (match self.mask {
                None => ix as int,
                Some(m) => if ix < m {
                    ix as int
                } else {
                    ix + 1
                },
            }),
    {
        match self.mask {
            None => ix,
            Some(m) => if ix < m {
                ix
            } else {
                ix + 1
            },
        }
    }

    /// Number of all entries, the masked one excluded.
    pub fn entry_count(&self) -> (r: usize)
        ensures
            r == self.model().len(),
    {
        let n: usize = self.content.entry_count();
        match self.mask {
            None => n,
            Some(_) => if n > 0 {
                n - 1
            } else {
                0
            },
        }
    }

    /// The model of the entry at the given masked index.
    pub fn get(&self, ix: usize) -> (r: Option<String>)
        requires
            ix < usize::MAX,
        ensures
            ix < self.model().len() ==> opt_str_view(r) == Some(self.model()[ix as int]),
            ({
                let internal: int = match self.mask {
                    None => ix as int,
                    Some(m) => if ix < m {
                        ix as int
                    } else {
                        ix + 1
                    },
                };
                &&& (r is Some <==> internal < self.content.model().len())
                &&& (internal < self.content.model().len() ==> opt_str_view(r) == Some(
                    self.content.model()[internal],
                ))
            }),
    {
        let internal_ix = self.unmasked_index(ix);
        let r = self.content.get(internal_ix);
        proof {
            let inner = self.content.model();
            match self.mask {
                None => {},
                Some(m) => {
                    if m < inner.len() {
                        if ix < self.model().len() {
                            assert(self.model()[ix as int] == inner.remove(m as int)[ix as int]);
                        }
                    }
                },
            }
        }
        r
    }

    /// Mask out the item at the given index, interpreted in the masked view
    /// of the elements.
    pub fn set_mask(&mut self, ix: usize)
        requires
            ix < usize::MAX,
        ensures
            final(self).content == old(self).content,
            final(self).mask == Some(
                (match old(self).mask {
                    None => ix as int,
                    Some(m) => if ix < m {
                        ix as int
                    } else {
                        ix + 1
                    },
                }) as usize,
            ),
    {
        let internal_ix = self.unmasked_index(ix);
        self.mask = Some(internal_ix);
    }

    /// Mask out the item at the given index, interpreted in the underlying
    /// unmasked data.
    pub fn set_mask_raw(&mut self, ix: usize)
        ensures
            final(self).content == old(self).content,
            final(self).mask == Some(ix),
    {
        self.mask = Some(ix);
    }

    /// Clear the masked item: every entry shows again.
    pub fn clear_mask(&mut self)
        ensures
            final(self).content == old(self).content,
            final(self).mask is None,
            final(self).model() =~= final(self).content.model(),
    {
        self.mask = None;
    }
}

} // verus!
