//! The table of tracked Sereal values and class names, by offset.
use vstd::prelude::*;
use std::collections::HashMap;
use crate::shared_model::{Heap, PerlValue, SpecValue, ValueRef, refs_below};

verus! {

broadcast use vstd::std_specs::hash::group_hash_axioms;

/// The values and class names a document tracks, keyed by the offset at which
/// they were decoded, together with the heap that holds the values.
pub struct SerealSeenTable {
    heap: Heap,
    offsets: HashMap<usize, ValueRef>,
    class_offsets: HashMap<usize, String>,
}

impl SerealSeenTable {
    /// The nodes of the heap that holds the values.
    pub closed spec fn heap_view(&self) -> Seq<SpecValue> {
        self.heap@
    }

    /// The tracked values by offset.
    pub closed spec fn offsets_view(&self) -> Map<usize, ValueRef> {
        self.offsets@
    }

    /// The tracked class names by offset.
    pub closed spec fn classes_view(&self) -> Map<usize, Seq<char>> {
        self.class_offsets@.map_values(|s: String| s@)
    }

    /// The heap is well formed and every tracked value is a node of it.
    pub closed spec fn wf(&self) -> bool {
        &&& self.heap.wf()
        &&& forall|k: usize| #[trigger] self.offsets@.contains_key(k) ==> self.offsets@[k] < self.heap@.len()
    }

    /// An empty table over an empty heap.
    pub fn new() -> (t: Self)
        ensures
            t.wf(),
            t.heap_view() == Seq::<SpecValue>::empty(),
            t.offsets_view() == Map::<usize, ValueRef>::empty(),
            t.classes_view() == Map::<usize, Seq<char>>::empty(),
    {
        let t = SerealSeenTable { heap: Heap::new(), offsets: HashMap::new(), class_offsets: HashMap::new() };
        assert(t.classes_view() =~= Map::<usize, Seq<char>>::empty());
        t
    }

    /// The heap that holds the values.
    pub fn heap(&self) -> (h: &Heap)
        ensures
            h@ == self.heap_view(),
            self.wf() ==> h.wf(),
    {
        &self.heap
    }

    /// Tracks `value` at `offset`, replacing what was tracked there.
    pub fn register(&mut self, offset: usize, value: ValueRef)
        requires
            old(self).wf(),
            value < old(self).heap_view().len(),
        ensures
            final(self).wf(),
            final(self).heap_view() == old(self).heap_view(),
            final(self).offsets_view() == old(self).offsets_view().insert(offset, value),
            final(self).classes_view() == old(self).classes_view(),
    {
        self.offsets.insert(offset, value);
    }

    /// The value tracked at `offset`.
    pub fn get(&self, offset: usize) -> (r: Option<ValueRef>)
        requires
            self.wf(),
        ensures
            r == (if self.offsets_view().contains_key(offset) {
                Some(self.offsets_view()[offset])
            } else {
                None::<ValueRef>
            }),
            r matches Some(v) ==> v < self.heap_view().len(),
    {
        match self.offsets.get(&offset) {
            Some(v) => Some(*v),
            None => None,
        }
    }

    /// Tracks the class name `class` at `offset`, replacing what was tracked there.
    pub fn register_class(&mut self, offset: usize, class: String)
        ensures
            final(self).heap_view() == old(self).heap_view(),
            final(self).offsets_view() == old(self).offsets_view(),
            final(self).classes_view() == old(self).classes_view().insert(offset, class@),
            old(self).wf() ==> final(self).wf(),
    {
        let ghost c = class@;
        self.class_offsets.insert(offset, class);
        assert(self.classes_view() =~= old(self).classes_view().insert(offset, c));
    }

    /// The class name tracked at `offset`.
    pub fn get_class(&self, offset: usize) -> (r: Option<String>)
        ensures
            self.classes_view().contains_key(offset) ==> (r matches Some(s) && s@
                == self.classes_view()[offset]),
            !self.classes_view().contains_key(offset) ==> r is None,
    {
        match self.class_offsets.get(&offset) {
            Some(s) => Some(s.clone()),
            None => None,
        }
    }

    /// Adds a node to the heap.
    pub fn allocate(&mut self, v: PerlValue) -> (r: ValueRef)
        requires
            old(self).wf(),
            v.wf(),
            refs_below(v@, old(self).heap_view().len() as int),
        ensures
            final(self).wf(),
            final(self).heap_view() == old(self).heap_view().push(v@),
            final(self).offsets_view() == old(self).offsets_view(),
            final(self).classes_view() == old(self).classes_view(),
            r == old(self).heap_view().len(),
    {
        self.heap.allocate(v)
    }

    /// Replaces a node of the heap.
    pub fn set(&mut self, r: ValueRef, v: PerlValue)
        requires
            old(self).wf(),
            r < old(self).heap_view().len(),
            v.wf(),
            refs_below(v@, old(self).heap_view().len() as int),
        ensures
            final(self).wf(),
            final(self).heap_view() == old(self).heap_view().update(r as int, v@),
            final(self).offsets_view() == old(self).offsets_view(),
            final(self).classes_view() == old(self).classes_view(),
    {
        self.heap.set(r, v)
    }
}

} // verus!
