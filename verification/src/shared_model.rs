//! The value model shared by the Storable and Sereal decoders.
//!
//! Decoded Perl data can share substructure and even be cyclic (a hash that
//! refers to itself).  Values therefore live in a [`Heap`], an arena of nodes,
//! and refer to each other by index ([`ValueRef`]).  Two references are the
//! same Perl value exactly when they are the same index.
use vstd::prelude::*;

verus! {

/// A reference to a node of a [`Heap`].
pub type ValueRef = usize;

/// True when the two byte strings are equal.
pub fn bytes_equal(a: &[u8], b: &[u8]) -> (r: bool)
    ensures
        r == (a@ == b@),
{
    if a.len() != b.len() {
        return false;
    }
    let mut i: usize = 0;
    while i < a.len()
        invariant
            a.len() == b.len(),
            i <= a.len(),
            forall|j: int| 0 <= j < i ==> a@[j] == b@[j],
        decreases a.len() - i,
    {
        if a[i] != b[i] {
            return false;
        }
        i = i + 1;
    }
    assert(a@ =~= b@);
    true
}

// ---------------------------------------------------------------------------
// Byte-keyed maps
// ---------------------------------------------------------------------------

/// The map that an association list denotes: a later entry for a key
/// overrides an earlier one.
pub open spec fn entries_to_map<V>(s: Seq<(Seq<u8>, V)>) -> Map<Seq<u8>, V>
    decreases s.len(),
{
    if s.len() == 0 {
        Map::empty()
    } else {
        entries_to_map(s.drop_last()).insert(s.last().0, s.last().1)
    }
}

/// No key occurs twice in the association list.
pub open spec fn keys_unique<V>(s: Seq<(Seq<u8>, V)>) -> bool {
    forall|i: int, j: int| 0 <= i < s.len() && 0 <= j < s.len() && i != j ==> s[i].0 != s[j].0
}

/// `j` is the last position of key `k` in `s`.
pub open spec fn last_occurrence<V>(s: Seq<(Seq<u8>, V)>, k: Seq<u8>, j: int) -> bool {
    &&& 0 <= j < s.len()
    &&& s[j].0 == k
    &&& forall|i: int| j < i < s.len() ==> s[i].0 != k
}

proof fn lemma_entries_absent<V>(s: Seq<(Seq<u8>, V)>, k: Seq<u8>)
    requires
        forall|i: int| 0 <= i < s.len() ==> s[i].0 != k,
    ensures
        !entries_to_map(s).contains_key(k),
    decreases s.len(),
{
    if s.len() > 0 {
        lemma_entries_absent(s.drop_last(), k);
    }
}

proof fn lemma_entries_last<V>(s: Seq<(Seq<u8>, V)>, k: Seq<u8>, j: int)
    requires
        last_occurrence(s, k, j),
    ensures
        entries_to_map(s).contains_key(k),
        entries_to_map(s)[k] == s[j].1,
    decreases s.len(),
{
    if j < s.len() - 1 {
        lemma_entries_last(s.drop_last(), k, j);
    }
}

proof fn lemma_entries_update<V>(s: Seq<(Seq<u8>, V)>, k: Seq<u8>, j: int, v: V)
    requires
        last_occurrence(s, k, j),
    ensures
        entries_to_map(s.update(j, (k, v))) =~= entries_to_map(s).insert(k, v),
    decreases s.len(),
{
    let t = s.update(j, (k, v));
    if j == s.len() - 1 {
        assert(t.drop_last() =~= s.drop_last());
    } else {
        assert(t.drop_last() =~= s.drop_last().update(j, (k, v)));
        lemma_entries_update(s.drop_last(), k, j, v);
    }
}

proof fn lemma_entries_len<V>(s: Seq<(Seq<u8>, V)>)
    requires
        keys_unique(s),
    ensures
        entries_to_map(s).dom().finite(),
        entries_to_map(s).dom().len() == s.len(),
    decreases s.len(),
{
    if s.len() > 0 {
        let t = s.drop_last();
        assert(keys_unique(t));
        lemma_entries_len(t);
        assert forall|i: int| 0 <= i < t.len() implies t[i].0 != s.last().0 by {
            assert(s[i] == t[i]);
        }
        lemma_entries_absent(t, s.last().0);
    }
}

/// A map from byte strings to values, in which each key occurs once.
#[derive(Debug)]
pub struct ByteMap<V> {
    entries: Vec<(Vec<u8>, V)>,
}

impl<V: Copy> ByteMap<V> {
    /// The entries, keys taken by their bytes.
    pub closed spec fn entry_seq(&self) -> Seq<(Seq<u8>, V)> {
        self.entries@.map_values(|e: (Vec<u8>, V)| (e.0@, e.1))
    }

    /// Each key occurs once.
    pub closed spec fn wf(&self) -> bool {
        keys_unique(self.entry_seq())
    }

    /// The contents as a map.
    pub closed spec fn contents(&self) -> Map<Seq<u8>, V> {
        entries_to_map(self.entry_seq())
    }

    /// An empty map.
    pub fn new() -> (m: Self)
        ensures
            m.wf(),
            m.contents() == Map::<Seq<u8>, V>::empty(),
    {
        let m = ByteMap { entries: Vec::new() };
        assert(m.entry_seq() =~= Seq::<(Seq<u8>, V)>::empty());
        m
    }

    /// The last position whose key is `key`, if any.
    fn find(&self, key: &[u8]) -> (r: Option<usize>)
        ensures
            r matches Some(j) ==> last_occurrence(self.entry_seq(), key@, j as int),
            r is None ==> forall|i: int|
                0 <= i < self.entry_seq().len() ==> self.entry_seq()[i].0 != key@,
    {
        let mut i: usize = self.entries.len();
        while i > 0
            invariant
                i <= self.entries.len(),
                self.entry_seq().len() == self.entries.len(),
                forall|j: int| i <= j < self.entry_seq().len() ==> self.entry_seq()[j].0 != key@,
            decreases i,
        {
            i = i - 1;
            if bytes_equal(self.entries[i].0.as_slice(), key) {
                return Some(i);
            }
        }
        None
    }

    /// The value stored under `key`, if any.
    pub fn get(&self, key: &[u8]) -> (r: Option<V>)
        ensures
            r == (if self.contents().contains_key(key@) {
                Some(self.contents()[key@])
            } else {
                None::<V>
            }),
    {
        match self.find(key) {
            Some(j) => {
                proof {
                    lemma_entries_last(self.entry_seq(), key@, j as int);
                }
                Some(self.entries[j].1)
            },
            None => {
                proof {
                    lemma_entries_absent(self.entry_seq(), key@);
                }
                None
            },
        }
    }

    /// Whether `key` has a value.
    pub fn contains_key(&self, key: &[u8]) -> (r: bool)
        ensures
            r == self.contents().contains_key(key@),
    {
        match self.get(key) {
            Some(_) => true,
            None => false,
        }
    }

    /// Stores `value` under `key`, replacing an earlier value.
    pub fn insert(&mut self, key: Vec<u8>, value: V)
        requires
            old(self).wf(),
        ensures
            final(self).wf(),
            final(self).contents() == old(self).contents().insert(key@, value),
    {
        let ghost s = self.entry_seq();
        match self.find(key.as_slice()) {
            Some(j) => {
                let ghost k = key@;
                self.entries.set(j, (key, value));
                proof {
                    assert(self.entry_seq() =~= s.update(j as int, (k, value)));
                    lemma_entries_update(s, k, j as int, value);
                }
            },
            None => {
                let ghost k = key@;
                self.entries.push((key, value));
                proof {
                    assert(self.entry_seq() =~= s.push((k, value)));
                    assert(self.entry_seq().drop_last() =~= s);
                }
            },
        }
    }

    /// The number of keys.
    pub fn len(&self) -> (r: usize)
        requires
            self.wf(),
        ensures
            r == self.contents().len(),
    {
        proof {
            lemma_entries_len(self.entry_seq());
        }
        self.entries.len()
    }
}

impl<V: Copy> View for ByteMap<V> {
    type V = Map<Seq<u8>, V>;

    open spec fn view(&self) -> Map<Seq<u8>, V> {
        self.contents()
    }
}


// ---------------------------------------------------------------------------
// Values
// ---------------------------------------------------------------------------

/// A decoded Perl value.  Children are references into the [`Heap`] that
/// holds the value, so several parents can share one child.
///
/// A floating-point number is kept as the bits of an IEEE-754 binary64.
#[derive(Debug)]
pub enum PerlValue {
    Undef,
    Yes,
    No,
    Integer(i64),
    Double(u64),
    Bytes(Vec<u8>),
    String(String),
    Array(Vec<ValueRef>),
    Hash(ByteMap<ValueRef>),
    Ref(ValueRef),
    WeakRef(ValueRef),
    Blessed(ValueRef, String),
    Overloaded(ValueRef),
    WeakOverloaded(ValueRef),
    VString(Vec<u8>),
    FlagHash { hash_flags: u8, entries: ByteMap<(u8, ValueRef)> },
    TiedScalar(ValueRef),
    TiedArray(ValueRef),
    TiedHash(ValueRef),
    TiedKey(ValueRef, ValueRef),
    TiedIdx(ValueRef, i64),
    Code(String),
    Regexp { pattern: ValueRef, flags: String },
    Hook {
        class: String,
        obj_type: u8,
        frozen: Vec<u8>,
        refs: Vec<ValueRef>,
        recurse: Vec<ValueRef>,
    },
    UnsignedInteger(u64),
}

/// The mathematical content of a [`PerlValue`].
pub enum SpecValue {
    Undef,
    Yes,
    No,
    Integer(i64),
    Double(u64),
    Bytes(Seq<u8>),
    Str(Seq<char>),
    Array(Seq<ValueRef>),
    Hash(Map<Seq<u8>, ValueRef>),
    Ref(ValueRef),
    WeakRef(ValueRef),
    Blessed(ValueRef, Seq<char>),
    Overloaded(ValueRef),
    WeakOverloaded(ValueRef),
    VString(Seq<u8>),
    FlagHash(u8, Map<Seq<u8>, (u8, ValueRef)>),
    TiedScalar(ValueRef),
    TiedArray(ValueRef),
    TiedHash(ValueRef),
    TiedKey(ValueRef, ValueRef),
    TiedIdx(ValueRef, i64),
    Code(Seq<char>),
    Regexp(ValueRef, Seq<char>),
    Hook(Seq<char>, u8, Seq<u8>, Seq<ValueRef>, Seq<ValueRef>),
    UnsignedInteger(u64),
}

impl View for PerlValue {
    type V = SpecValue;

    open spec fn view(&self) -> SpecValue {
        match self {
            PerlValue::Undef => SpecValue::Undef,
            PerlValue::Yes => SpecValue::Yes,
            PerlValue::No => SpecValue::No,
            PerlValue::Integer(n) => SpecValue::Integer(*n),
            PerlValue::Double(b) => SpecValue::Double(*b),
            PerlValue::Bytes(b) => SpecValue::Bytes(b@),
            PerlValue::String(s) => SpecValue::Str(s@),
            PerlValue::Array(items) => SpecValue::Array(items@),
            PerlValue::Hash(m) => SpecValue::Hash(m@),
            PerlValue::Ref(r) => SpecValue::Ref(*r),
            PerlValue::WeakRef(r) => SpecValue::WeakRef(*r),
            PerlValue::Blessed(r, c) => SpecValue::Blessed(*r, c@),
            PerlValue::Overloaded(r) => SpecValue::Overloaded(*r),
            PerlValue::WeakOverloaded(r) => SpecValue::WeakOverloaded(*r),
            PerlValue::VString(b) => SpecValue::VString(b@),
            PerlValue::FlagHash { hash_flags, entries } => SpecValue::FlagHash(*hash_flags, entries@),
            PerlValue::TiedScalar(r) => SpecValue::TiedScalar(*r),
            PerlValue::TiedArray(r) => SpecValue::TiedArray(*r),
            PerlValue::TiedHash(r) => SpecValue::TiedHash(*r),
            PerlValue::TiedKey(a, b) => SpecValue::TiedKey(*a, *b),
            PerlValue::TiedIdx(a, i) => SpecValue::TiedIdx(*a, *i),
            PerlValue::Code(s) => SpecValue::Code(s@),
            PerlValue::Regexp { pattern, flags } => SpecValue::Regexp(*pattern, flags@),
            PerlValue::Hook { class, obj_type, frozen, refs, recurse } => SpecValue::Hook(
                class@,
                *obj_type,
                frozen@,
                refs@,
                recurse@,
            ),
            PerlValue::UnsignedInteger(n) => SpecValue::UnsignedInteger(*n),
        }
    }
}

impl PerlValue {
    /// The maps inside the value have unique keys.
    pub open spec fn wf(&self) -> bool {
        match self {
            PerlValue::Hash(m) => m.wf(),
            PerlValue::FlagHash { entries, .. } => entries.wf(),
            _ => true,
        }
    }

    /// Places `value` in `heap` and returns its reference.
    pub fn wrap(heap: &mut Heap, value: PerlValue) -> (r: ValueRef)
        requires
            old(heap).wf(),
            value.wf(),
            refs_below(value@, old(heap)@.len() as int),
        ensures
            final(heap).wf(),
            final(heap)@ == old(heap)@.push(value@),
            r == old(heap)@.len(),
    {
        heap.allocate(value)
    }
}

/// Every reference in `s` is below `n`.
pub open spec fn seq_below(s: Seq<ValueRef>, n: int) -> bool {
    forall|i: int| 0 <= i < s.len() ==> #[trigger] s[i] < n
}

/// Every value of `m` is below `n`.
pub open spec fn map_below(m: Map<Seq<u8>, ValueRef>, n: int) -> bool {
    forall|k: Seq<u8>| #[trigger] m.contains_key(k) ==> m[k] < n
}

/// Every reference among the values of `m` is below `n`.
pub open spec fn flag_map_below(m: Map<Seq<u8>, (u8, ValueRef)>, n: int) -> bool {
    forall|k: Seq<u8>| #[trigger] m.contains_key(k) ==> m[k].1 < n
}

/// Every reference inside `v` is below `n`.
pub open spec fn refs_below(v: SpecValue, n: int) -> bool {
    match v {
        SpecValue::Array(items) => seq_below(items, n),
        SpecValue::Hash(m) => map_below(m, n),
        SpecValue::Ref(r) => r < n,
        SpecValue::WeakRef(r) => r < n,
        SpecValue::Blessed(r, _) => r < n,
        SpecValue::Overloaded(r) => r < n,
        SpecValue::WeakOverloaded(r) => r < n,
        SpecValue::FlagHash(_, m) => flag_map_below(m, n),
        SpecValue::TiedScalar(r) => r < n,
        SpecValue::TiedArray(r) => r < n,
        SpecValue::TiedHash(r) => r < n,
        SpecValue::TiedKey(a, b) => a < n && b < n,
        SpecValue::TiedIdx(a, _) => a < n,
        SpecValue::Regexp(p, _) => p < n,
        SpecValue::Hook(_, _, _, refs, recurse) => seq_below(refs, n) && seq_below(recurse, n),
        _ => true,
    }
}

/// A reference bound that holds below `n` holds below any larger bound.
pub proof fn lemma_refs_below_mono(v: SpecValue, n: int, m: int)
    requires
        refs_below(v, n),
        n <= m,
    ensures
        refs_below(v, m),
{
}

/// Adding an entry whose value is below `n` to a hash keeps its references below `n`.
pub proof fn lemma_hash_refs_insert(m: Map<Seq<u8>, ValueRef>, k: Seq<u8>, v: ValueRef, n: int)
    requires
        map_below(m, n),
        v < n,
    ensures
        map_below(m.insert(k, v), n),
{
    assert forall|j: Seq<u8>| #[trigger] m.insert(k, v).contains_key(j) implies m.insert(k, v)[j] < n by {
        if j != k {
            assert(m.contains_key(j));
        }
    }
}

/// Adding an entry whose value is below `n` to a flagged hash keeps its
/// references below `n`.
pub proof fn lemma_flag_hash_refs_insert(
    m: Map<Seq<u8>, (u8, ValueRef)>,
    k: Seq<u8>,
    v: (u8, ValueRef),
    n: int,
)
    requires
        flag_map_below(m, n),
        v.1 < n,
    ensures
        flag_map_below(m.insert(k, v), n),
{
    assert forall|j: Seq<u8>| #[trigger] m.insert(k, v).contains_key(j) implies m.insert(k, v)[j].1 < n by {
        if j != k {
            assert(m.contains_key(j));
        }
    }
}

// ---------------------------------------------------------------------------
// The heap
// ---------------------------------------------------------------------------

/// An arena of values.
pub struct Heap {
    nodes: Vec<PerlValue>,
}

impl View for Heap {
    type V = Seq<SpecValue>;

    closed spec fn view(&self) -> Seq<SpecValue> {
        self.nodes@.map_values(|v: PerlValue| v@)
    }
}

impl Heap {
    /// Every node is well formed and refers only to nodes of the heap.
    pub closed spec fn wf(&self) -> bool {
        forall|i: int|
            0 <= i < self.nodes@.len() ==> #[trigger] self.nodes@[i].wf() && refs_below(
                self.nodes@[i]@,
                self.nodes@.len() as int,
            )
    }

    /// An empty heap.
    pub fn new() -> (h: Self)
        ensures
            h.wf(),
            h@ == Seq::<SpecValue>::empty(),
    {
        let h = Heap { nodes: Vec::new() };
        assert(h@ =~= Seq::<SpecValue>::empty());
        h
    }

    /// The number of nodes.
    pub fn len(&self) -> (r: usize)
        ensures
            r == self@.len(),
    {
        self.nodes.len()
    }

    /// The node `r`.
    pub fn get(&self, r: ValueRef) -> (v: &PerlValue)
        requires
            r < self@.len(),
        ensures
            v@ == self@[r as int],
            self.wf() ==> v.wf(),
            self.wf() ==> refs_below(v@, self@.len() as int),
    {
        proof {
            if self.wf() {
                assert(self.nodes@[r as int].wf());
            }
        }
        &self.nodes[r]
    }

    /// Adds a node and returns its reference.
    pub fn allocate(&mut self, v: PerlValue) -> (r: ValueRef)
        requires
            old(self).wf(),
            v.wf(),
            refs_below(v@, old(self)@.len() as int),
        ensures
            final(self).wf(),
            final(self)@ == old(self)@.push(v@),
            r == old(self)@.len(),
    {
        let r = self.nodes.len();
        let ghost v_view = v@;
        let ghost gv = v;
        self.nodes.push(v);
        proof {
            assert(self@ =~= old(self)@.push(v_view));
            assert forall|i: int| 0 <= i < self.nodes@.len() implies #[trigger] self.nodes@[i].wf()
                && refs_below(self.nodes@[i]@, self.nodes@.len() as int) by {
                if i < r {
                    assert(self.nodes@[i] == old(self).nodes@[i]);
                    assert(old(self).nodes@[i].wf());
                    lemma_refs_below_mono(self.nodes@[i]@, r as int, self.nodes@.len() as int);
                } else {
                    assert(self.nodes@[i] == gv);
                    lemma_refs_below_mono(self.nodes@[i]@, r as int, self.nodes@.len() as int);
                }
            }
        }
        r
    }

    /// Replaces node `r`.
    pub fn set(&mut self, r: ValueRef, v: PerlValue)
        requires
            old(self).wf(),
            r < old(self)@.len(),
            v.wf(),
            refs_below(v@, old(self)@.len() as int),
        ensures
            final(self).wf(),
            final(self)@ == old(self)@.update(r as int, v@),
    {
        let ghost v_view = v@;
        let ghost gv = v;
        self.nodes.set(r, v);
        proof {
            assert(self@ =~= old(self)@.update(r as int, v_view));
            assert forall|i: int| 0 <= i < self.nodes@.len() implies #[trigger] self.nodes@[i].wf()
                && refs_below(self.nodes@[i]@, self.nodes@.len() as int) by {
                if i != r {
                    assert(self.nodes@[i] == old(self).nodes@[i]);
                    assert(old(self).nodes@[i].wf());
                } else {
                    assert(self.nodes@[i] == gv);
                }
            }
        }
    }
}

// ---------------------------------------------------------------------------
// Tables of already decoded values and of class names
// ---------------------------------------------------------------------------

/// The values decoded so far, in the order they were registered, together with
/// the heap that holds them.
pub struct SeenTable {
    heap: Heap,
    values: Vec<ValueRef>,
}

impl SeenTable {
    /// The registered references, in order.
    pub closed spec fn indices(&self) -> Seq<ValueRef> {
        self.values@
    }

    /// The nodes of the heap that holds the values.
    pub closed spec fn heap_view(&self) -> Seq<SpecValue> {
        self.heap@
    }

    /// The heap that holds the values.
    pub fn heap(&self) -> (h: &Heap)
        ensures
            h@ == self.heap_view(),
            self.wf() ==> h.wf(),
    {
        &self.heap
    }

    /// The heap is well formed and every registered reference is a node of it.
    pub closed spec fn wf(&self) -> bool {
        &&& self.heap.wf()
        &&& forall|i: int| 0 <= i < self.values@.len() ==> #[trigger] self.values@[i] < self.heap@.len()
    }

    /// An empty table over an empty heap.
    pub fn new() -> (t: Self)
        ensures
            t.wf(),
            t.heap_view() == Seq::<SpecValue>::empty(),
            t.indices() == Seq::<ValueRef>::empty(),
    {
        SeenTable { heap: Heap::new(), values: Vec::new() }
    }

    /// Registers `value` and returns its index.
    pub fn register(&mut self, value: ValueRef) -> (index: usize)
        requires
            old(self).wf(),
            value < old(self).heap_view().len(),
        ensures
            final(self).wf(),
            final(self).heap_view() == old(self).heap_view(),
            final(self).indices() == old(self).indices().push(value),
            index == old(self).indices().len(),
    {
        let index = self.values.len();
        self.values.push(value);
        index
    }

    /// The value registered under `index`; `None` when the index is out of range.
    pub fn get(&self, index: usize) -> (r: Option<ValueRef>)
        requires
            self.wf(),
        ensures
            r == (if index < self.indices().len() {
                Some(self.indices()[index as int])
            } else {
                None::<ValueRef>
            }),
            r matches Some(v) ==> v < self.heap_view().len(),
    {
        if index < self.values.len() {
            Some(self.values[index])
        } else {
            None
        }
    }

    /// The number of registered values.
    pub fn len(&self) -> (r: usize)
        ensures
            r == self.indices().len(),
    {
        self.values.len()
    }

    /// Adds a node to the heap, leaving the registered values alone.
    pub fn allocate(&mut self, v: PerlValue) -> (r: ValueRef)
        requires
            old(self).wf(),
            v.wf(),
            refs_below(v@, old(self).heap_view().len() as int),
        ensures
            final(self).wf(),
            final(self).heap_view() == old(self).heap_view().push(v@),
            final(self).indices() == old(self).indices(),
            r == old(self).heap_view().len(),
    {
        self.heap.allocate(v)
    }

    /// Replaces a node of the heap, leaving the registered values alone.
    pub fn set(&mut self, r: ValueRef, v: PerlValue)
        requires
            old(self).wf(),
            r < old(self).heap_view().len(),
            v.wf(),
            refs_below(v@, old(self).heap_view().len() as int),
        ensures
            final(self).wf(),
            final(self).heap_view() == old(self).heap_view().update(r as int, v@),
            final(self).indices() == old(self).indices(),
    {
        self.heap.set(r, v)
    }
}

impl Default for SeenTable {
    fn default() -> (t: Self)
        ensures
            t.wf(),
            t.heap_view() == Seq::<SpecValue>::empty(),
            t.indices() == Seq::<ValueRef>::empty(),
    {
        SeenTable::new()
    }
}

/// The class names decoded so far, in the order they were registered.
pub struct ClassTable {
    names: Vec<String>,
}

impl View for ClassTable {
    type V = Seq<Seq<char>>;

    closed spec fn view(&self) -> Seq<Seq<char>> {
        self.names@.map_values(|s: String| s@)
    }
}

impl ClassTable {
    /// An empty table.
    pub fn new() -> (t: Self)
        ensures
            t@ == Seq::<Seq<char>>::empty(),
    {
        let t = ClassTable { names: Vec::new() };
        assert(t@ =~= Seq::<Seq<char>>::empty());
        t
    }

    /// Registers `name` and returns its index.
    pub fn register(&mut self, name: String) -> (index: usize)
        ensures
            final(self)@ == old(self)@.push(name@),
            index == old(self)@.len(),
    {
        let index = self.names.len();
        let ghost n = name@;
        self.names.push(name);
        assert(self@ =~= old(self)@.push(n));
        index
    }

    /// The name registered under `index`; `None` when the index is out of range.
    pub fn get(&self, index: usize) -> (r: Option<&str>)
        ensures
            index < self@.len() ==> (r matches Some(s) && s@ == self@[index as int]),
            index >= self@.len() ==> r is None,
    {
        if index < self.names.len() {
            Some(self.names[index].as_str())
        } else {
            None
        }
    }
}

impl Default for ClassTable {
    fn default() -> (t: Self)
        ensures
            t@ == Seq::<Seq<char>>::empty(),
    {
        ClassTable::new()
    }
}

// ---------------------------------------------------------------------------
// Laws
// ---------------------------------------------------------------------------

/// Registering a value gives it the next index, and looking that index up
/// gives back the very node registered; what was registered before keeps its
/// index.  Registering one node twice gives two indices that resolve to it.
pub proof fn lemma_seen_register_then_get(indices: Seq<ValueRef>, v: ValueRef, w: ValueRef)
    ensures
        indices.push(v)[indices.len() as int] == v,
        forall|i: int| 0 <= i < indices.len() ==> #[trigger] indices.push(v)[i] == indices[i],
        indices.push(v).push(w)[indices.len() as int] == v,
        indices.push(v).push(w)[indices.len() + 1int] == w,
{
}

/// Registering a class name gives it the next index, under which it is found
/// again; the names registered before keep their indices.
pub proof fn lemma_class_register_then_get(names: Seq<Seq<char>>, name: Seq<char>)
    ensures
        names.push(name).len() == names.len() + 1,
        names.push(name)[names.len() as int] == name,
        forall|i: int| 0 <= i < names.len() ==> #[trigger] names.push(name)[i] == names[i],
{
}

/// After an insertion a byte-keyed map finds the new value under its key and
/// every other key as before.
pub proof fn lemma_byte_map_insert_then_get<V>(m: Map<Seq<u8>, V>, key: Seq<u8>, v: V, other: Seq<u8>)
    requires
        other != key,
    ensures
        m.insert(key, v).contains_key(key),
        m.insert(key, v)[key] == v,
        m.insert(key, v).contains_key(other) == m.contains_key(other),
        m.contains_key(other) ==> m.insert(key, v)[other] == m[other],
{
}

} // verus!
